//! The crowd: pedestrians, the obstacles that repel them, the destinations
//! that attract them, and the step that moves them.
//!
//! A step has two passes. The first works out one acceleration for every
//! active pedestrian from the crowd as it stands; the second moves the
//! pedestrians. No pedestrian is moved before every acceleration is known, so
//! no acceleration depends on where another pedestrian has been moved to.

use crate::scalar::Scalar;
use crate::util::{nearest_on_path, nearest_point_on_path, Projection};
use crate::vector::{
    difference, direction, dot, inner, length, length_squared, norm, normalize_or_zero, opposite,
    squared_norm, sum, vec_add, vec_neg, vec_sub,
};
use glam::DVec2;
use vstd::prelude::*;

verus! {

/// The length of a step in seconds, a tenth, as a binary64 pattern.
pub const TIME_STEP_BITS: u64 = 0x3FB9_9999_9999_999A;

/// The distance, three, up to which a pedestrian or an obstacle is felt, as a
/// binary64 pattern.
pub const INTERACTION_RADIUS_BITS: u64 = 0x4008_0000_0000_0000;

/// The square of the distance, a fifth, below which a pedestrian has reached
/// its destination, as a binary64 pattern.
pub const ARRIVAL_DISTANCE_SQUARED_BITS: u64 = 0x3FA4_7AE1_47AE_147C;

/// Pedestrian.
#[derive(Debug, Clone)]
pub struct Pedestrian {
    /// Active flag.
    /// If false, the pedestrian is not considered in the simulation.
    pub active: bool,
    /// Position.
    pub position: DVec2,
    /// Velocity.
    pub velocity: DVec2,
    /// Desired speed.
    pub desired_speed: Scalar,
    /// Destination ID.
    pub destination_id: usize,
}

/// Obstacle.
#[derive(Debug, Clone)]
pub struct Obstacle {
    /// Path points.
    pub points: Vec<DVec2>,
}

/// Destination.
#[derive(Debug, Clone)]
pub struct Destination {
    /// Path points.
    pub points: Vec<DVec2>,
}

/// Simulation state.
#[derive(Debug)]
pub struct State {
    pub pedestrians: Vec<Pedestrian>,
    pub obstacles: Vec<Obstacle>,
    pub destinations: Vec<Destination>,
}

/// The arithmetic of the forces and of the motion. The library asks for
/// each formula with the values named here and does with the answer what the
/// contracts of `State` say; it does not look into the answer.
pub trait Forces: Projection {
    /// The acceleration of a pedestrian that is alone, which takes up its
    /// desired velocity within the relaxation time:
    /// `(desired_move_dir * desired_speed - velocity) / relaxation_time`.
    fn goal(&self, desired_move_dir: DVec2, pedestrian: &Pedestrian) -> DVec2;

    /// The force of `other` on `pedestrian`, whichever way the pedestrian
    /// looks. `diff` leads from `other` to `pedestrian` and `distance` is its
    /// length, which is above zero and within the interaction radius. With
    /// `t1 = diff - other.velocity * time_step`, `t2 = distance + |t1|` and
    /// `b = sqrt(t2 * t2 - (|other.velocity| * time_step)^2) / 2` it is
    /// `strength / range * exp(-b / range) * t2 * (diff / distance + t1 / |t1|) / (4 * b)`.
    fn pedestrian(
        &self,
        pedestrian: &Pedestrian,
        other: &Pedestrian,
        diff: DVec2,
        distance: Scalar,
        time_step: Scalar,
    ) -> DVec2;

    /// `force_length` times the cosine of half the angle of sight. A force of
    /// that length comes from out of sight where the pedestrian's direction,
    /// multiplied with the force reversed, stays below this bound.
    fn sight_bound(&self, force_length: Scalar) -> Scalar;

    /// Half of `force`: what counts of a force from out of sight.
    fn halved(&self, force: DVec2) -> DVec2;

    /// The force of an obstacle. `diff` leads from the nearest point of the
    /// obstacle to the pedestrian and `distance` is its length, which is above
    /// zero and within the interaction radius:
    /// `strength * range * exp(-distance / range) * diff / distance`.
    fn obstacle(&self, diff: DVec2, distance: Scalar) -> DVec2;

    /// The velocity after a step under `acceleration`:
    /// `velocity + acceleration * time_step`, cut down to the pedestrian's
    /// top speed where it is longer.
    fn accelerate(&self, pedestrian: &Pedestrian, acceleration: DVec2, time_step: Scalar) -> DVec2;

    /// The way made in a step, from the sum of the velocities before and
    /// after it: `velocity_sum * time_step / 2`.
    fn displacement(&self, velocity_sum: DVec2, time_step: Scalar) -> DVec2;
}

/// `distance` is above zero and within the interaction radius.
pub open spec fn interacts(distance: Scalar) -> bool {
    (Scalar { bits: 0 }).spec_lt(distance) && distance.spec_le(
        Scalar { bits: INTERACTION_RADIUS_BITS },
    )
}

/// `distance_squared` is the square of a distance from which a destination
/// counts as reached.
pub open spec fn near_enough(distance_squared: Scalar) -> bool {
    distance_squared.spec_lt(Scalar { bits: ARRIVAL_DISTANCE_SQUARED_BITS })
}

/// A pedestrian at `position` has reached a destination whose nearest point
/// is `target`.
pub open spec fn arrived(position: DVec2, target: DVec2) -> bool {
    near_enough(squared_norm(difference(target, position)))
}

/// Whether something at `distance` is felt: whether the distance is above
/// zero and within the interaction radius.
pub fn within_reach(distance: Scalar) -> (r: bool)
    ensures
        r == interacts(distance),
{
    (Scalar { bits: 0 }).lt(distance) && distance.le(Scalar { bits: INTERACTION_RADIUS_BITS })
}

/// Whether a destination whose nearest point lies at the distance of which
/// `distance_squared` is the square is reached.
pub fn has_arrived(distance_squared: Scalar) -> (r: bool)
    ensures
        r == near_enough(distance_squared),
{
    distance_squared.lt(Scalar { bits: ARRIVAL_DISTANCE_SQUARED_BITS })
}

/// `other`, the pedestrian at `j`, is felt by the pedestrian `p` at `i`: it is
/// another one, it is active, and it stands apart from `p` within the
/// interaction radius.
pub open spec fn feels(p: Pedestrian, i: int, other: Pedestrian, j: int) -> bool {
    j != i && other.active && interacts(norm(difference(p.position, other.position)))
}

/// A force comes from out of sight of a pedestrian that looks along `dir`:
/// `dir`, multiplied with the force reversed, is below `bound`.
pub open spec fn out_of_sight(dir: DVec2, force: DVec2, bound: Scalar) -> bool {
    inner(dir, opposite(force)).spec_lt(bound)
}

/// `force` is what a pedestrian that looks along `dir` feels of `raw`, a
/// force of the length `raw_length`: all of it, or half of it where it comes
/// from out of sight.
pub open spec fn felt_of<M: Forces>(
    m: &M,
    dir: DVec2,
    raw: DVec2,
    raw_length: Scalar,
    force: DVec2,
) -> bool {
    exists|bound: Scalar| #[trigger]
        call_ensures(M::sight_bound, (m, raw_length), bound) && if out_of_sight(dir, raw, bound) {
            call_ensures(M::halved, (m, raw), force)
        } else {
            force == raw
        }
}

/// `force` is what a pedestrian that looks along `dir` feels of `raw`. The
/// length of `raw` is handed to `m` as glam gave it: as the number it is, or
/// as some NaN where it is none.
pub open spec fn felt<M: Forces>(m: &M, dir: DVec2, raw: DVec2, force: DVec2) -> bool {
    exists|raw_length: Scalar| #[trigger]
        raw_length.alike(norm(raw)) && felt_of(m, dir, raw, raw_length, force)
}

/// `next` is `prev` and what a pedestrian that looks along `dir` feels of
/// the force `raw`.
pub open spec fn pushed<M: Forces>(m: &M, dir: DVec2, raw: DVec2, prev: DVec2, next: DVec2) -> bool {
    exists|force: DVec2| #[trigger] felt(m, dir, raw, force) && next == sum(prev, force)
}

/// `next` is the acceleration of `p`, the pedestrian at `i`, once `other`, the
/// one at `j`, has been taken into account after `prev`.
pub open spec fn pedestrian_step<M: Forces>(
    m: &M,
    p: Pedestrian,
    i: int,
    other: Pedestrian,
    j: int,
    dir: DVec2,
    prev: DVec2,
    next: DVec2,
) -> bool {
    if feels(p, i, other, j) {
        let diff = difference(p.position, other.position);
        let dt = Scalar { bits: TIME_STEP_BITS };
        exists|raw: DVec2| #[trigger]
            call_ensures(M::pedestrian, (m, &p, &other, diff, norm(diff), dt), raw) && pushed(
                m,
                dir,
                raw,
                prev,
                next,
            )
    } else {
        next == prev
    }
}

/// `next` is the acceleration of a pedestrian at `position` once the
/// obstacle along `points` has been taken into account after `prev`.
pub open spec fn obstacle_step<M: Forces>(
    m: &M,
    position: DVec2,
    points: Seq<DVec2>,
    prev: DVec2,
    next: DVec2,
) -> bool {
    exists|nearest: DVec2| #[trigger]
        nearest_on_path(m, position, points, nearest) && {
            let diff = difference(position, nearest);
            if interacts(norm(diff)) {
                exists|force: DVec2| #[trigger]
                    call_ensures(M::obstacle, (m, diff, norm(diff)), force) && next == sum(
                        prev,
                        force,
                    )
            } else {
                next == prev
            }
        }
}

/// `q` is the pedestrian `p` at `position` and with `velocity`, active unless
/// it has arrived there at the destination along `points`.
pub open spec fn settled<M: Forces>(
    m: &M,
    p: Pedestrian,
    velocity: DVec2,
    position: DVec2,
    points: Seq<DVec2>,
    q: Pedestrian,
) -> bool {
    exists|target: DVec2| #[trigger]
        nearest_on_path(m, position, points, target) && q == (Pedestrian {
            active: !arrived(position, target),
            position,
            velocity,
            desired_speed: p.desired_speed,
            destination_id: p.destination_id,
        })
}

/// `q` is the pedestrian `p` after a step that ends with `velocity`: it has
/// made the way that `m` gives for the sum of its velocities before and after
/// the step.
pub open spec fn carried<M: Forces>(
    m: &M,
    p: Pedestrian,
    velocity: DVec2,
    points: Seq<DVec2>,
    q: Pedestrian,
) -> bool {
    exists|way: DVec2| #[trigger]
        call_ensures(
            M::displacement,
            (m, sum(velocity, p.velocity), Scalar { bits: TIME_STEP_BITS }),
            way,
        ) && settled(m, p, velocity, sum(p.position, way), points, q)
}

/// `q` is the pedestrian `p` after a step under `acceleration`, towards the
/// destination along `points`: the new velocity is what `m` makes of the old
/// one, the new position lies the way of one step from the old one, and the
/// pedestrian stays active unless it has arrived there.
pub open spec fn moved<M: Forces>(
    m: &M,
    p: Pedestrian,
    acceleration: DVec2,
    points: Seq<DVec2>,
    q: Pedestrian,
) -> bool {
    exists|velocity: DVec2| #[trigger]
        call_ensures(
            M::accelerate,
            (m, &p, acceleration, Scalar { bits: TIME_STEP_BITS }),
            velocity,
        ) && carried(m, p, velocity, points, q)
}

impl Pedestrian {
    /// An active pedestrian.
    pub fn new(position: DVec2, velocity: DVec2, desired_speed: Scalar, destination_id: usize) -> (p:
        Pedestrian)
        ensures
            p == (Pedestrian { active: true, position, velocity, desired_speed, destination_id }),
    {
        Pedestrian { active: true, position, velocity, desired_speed, destination_id }
    }
}

impl Obstacle {
    /// Create a new obstacle from a series of points.
    pub fn new(points: Vec<DVec2>) -> (o: Obstacle)
        ensures
            o.points == points,
    {
        Obstacle { points }
    }
}

impl Destination {
    /// Create a new destination from a series of points.
    pub fn new(points: Vec<DVec2>) -> (d: Destination)
        ensures
            d.points == points,
    {
        Destination { points }
    }
}

impl Default for State {
    fn default() -> (s: State)
        ensures
            s.pedestrians@.len() == 0,
            s.obstacles@.len() == 0,
            s.destinations@.len() == 0,
    {
        State { pedestrians: Vec::new(), obstacles: Vec::new(), destinations: Vec::new() }
    }
}

impl State {
    /// A step can be made: every active pedestrian is bound for a destination
    /// of this crowd, and that destination and every obstacle have a point.
    pub open spec fn well_formed(&self) -> bool {
        &&& forall|i: int|
            0 <= i < self.pedestrians.len() && (#[trigger] self.pedestrians[i]).active ==> {
                &&& self.pedestrians[i].destination_id < self.destinations.len()
                &&& self.destinations[self.pedestrians[i].destination_id as int].points.len() > 0
            }
        &&& forall|k: int|
            0 <= k < self.obstacles.len() ==> (#[trigger] self.obstacles[k]).points.len() > 0
    }

    /// `accs` is the course of the first half of the work on the pedestrian
    /// at `i`: from `accs[0]`, its acceleration when alone, the pedestrians are
    /// taken into account one by one, in their order.
    pub open spec fn pedestrian_trace<M: Forces>(
        &self,
        m: &M,
        i: int,
        dir: DVec2,
        accs: Seq<DVec2>,
    ) -> bool {
        &&& 0 < accs.len() <= self.pedestrians.len() + 1
        &&& forall|j: int|
            0 <= j < accs.len() - 1 ==> pedestrian_step(
                m,
                self.pedestrians[i],
                i,
                #[trigger] self.pedestrians[j],
                j,
                dir,
                accs[j],
                accs[j + 1],
            )
    }

    /// `accs` is the course of the second half of the work on a pedestrian at
    /// `position`: the obstacles are taken into account one by one, in their
    /// order.
    pub open spec fn obstacle_trace<M: Forces>(
        &self,
        m: &M,
        position: DVec2,
        accs: Seq<DVec2>,
    ) -> bool {
        &&& 0 < accs.len() <= self.obstacles.len() + 1
        &&& forall|k: int|
            0 <= k < accs.len() - 1 ==> obstacle_step(
                m,
                position,
                (#[trigger] self.obstacles[k]).points@,
                accs[k],
                accs[k + 1],
            )
    }

    /// `acceleration` is what `start` becomes by the obstacles of this crowd,
    /// for a pedestrian at `position`.
    pub open spec fn past_obstacles<M: Forces>(
        &self,
        m: &M,
        position: DVec2,
        start: DVec2,
        acceleration: DVec2,
    ) -> bool {
        exists|along: Seq<DVec2>| #[trigger]
            self.obstacle_trace(m, position, along) && along.len() == self.obstacles.len() + 1
                && along[0] == start && along.last() == acceleration
    }

    /// `acceleration` is the acceleration of the pedestrian at `i`, which
    /// wishes to go along `dir`: what it would be alone, then changed by every
    /// pedestrian it feels, then by every obstacle it feels.
    pub open spec fn accelerated_along<M: Forces>(
        &self,
        m: &M,
        i: int,
        dir: DVec2,
        acceleration: DVec2,
    ) -> bool {
        exists|among: Seq<DVec2>| #[trigger]
            self.pedestrian_trace(m, i, dir, among) && among.len() == self.pedestrians.len() + 1
                && call_ensures(M::goal, (m, dir, &self.pedestrians[i]), among[0])
                && self.past_obstacles(
                m,
                self.pedestrians[i].position,
                among.last(),
                acceleration,
            )
    }

    /// `acceleration` is the acceleration of the pedestrian at `i` in this
    /// crowd, which wishes to go towards the nearest point of its
    /// destination.
    pub open spec fn acceleration_of<M: Forces>(&self, m: &M, i: int, acceleration: DVec2) -> bool {
        let p = self.pedestrians[i];
        exists|target: DVec2| #[trigger]
            nearest_on_path(
                m,
                p.position,
                self.destinations[p.destination_id as int].points@,
                target,
            ) && self.accelerated_along(
                m,
                i,
                direction(difference(target, p.position)),
                acceleration,
            )
    }

    /// `accelerations` holds an acceleration of each active pedestrian of
    /// this crowd, and nothing for the others.
    pub open spec fn accelerations_of<M: Forces>(
        &self,
        m: &M,
        accelerations: Seq<Option<DVec2>>,
    ) -> bool {
        &&& accelerations.len() == self.pedestrians.len()
        &&& forall|i: int|
            0 <= i < self.pedestrians.len() ==> match #[trigger] accelerations[i] {
                Some(a) => self.pedestrians[i].active && self.acceleration_of(m, i, a),
                None => !self.pedestrians[i].active,
            }
    }

    /// `after` is this crowd one step on, under `accelerations`: a pedestrian
    /// that was not active is as it was, and an active one has moved.
    pub open spec fn advanced_to<M: Forces>(
        &self,
        m: &M,
        accelerations: Seq<Option<DVec2>>,
        after: State,
    ) -> bool {
        &&& after.obstacles == self.obstacles
        &&& after.destinations == self.destinations
        &&& after.pedestrians.len() == self.pedestrians.len()
        &&& forall|i: int|
            0 <= i < self.pedestrians.len() ==> if self.pedestrians[i].active {
                moved(
                    m,
                    self.pedestrians[i],
                    accelerations[i].unwrap(),
                    self.destinations[self.pedestrians[i].destination_id as int].points@,
                    #[trigger] after.pedestrians[i],
                )
            } else {
                after.pedestrians[i] == self.pedestrians[i]
            }
    }

    /// `after` is this crowd one step on: every active pedestrian got its
    /// acceleration from this crowd as it stands, and then each was moved.
    pub open spec fn stepped_to<M: Forces>(&self, m: &M, after: State) -> bool {
        exists|accelerations: Seq<Option<DVec2>>| #[trigger]
            self.accelerations_of(m, accelerations) && self.advanced_to(m, accelerations, after)
    }

    pub fn spawn_pedestrian(&mut self, pedestrian: Pedestrian)
        ensures
            final(self).pedestrians@ == old(self).pedestrians@.push(pedestrian),
            final(self).obstacles == old(self).obstacles,
            final(self).destinations == old(self).destinations,
    {
        self.pedestrians.push(pedestrian);
    }

    pub fn add_obstacle(&mut self, obstacle: Obstacle)
        ensures
            final(self).obstacles@ == old(self).obstacles@.push(obstacle),
            final(self).pedestrians == old(self).pedestrians,
            final(self).destinations == old(self).destinations,
    {
        self.obstacles.push(obstacle);
    }

    pub fn add_destination(&mut self, destination: Destination)
        ensures
            final(self).destinations@ == old(self).destinations@.push(destination),
            final(self).pedestrians == old(self).pedestrians,
            final(self).obstacles == old(self).obstacles,
    {
        self.destinations.push(destination);
    }

    /// Whether a step can be made.
    pub fn is_well_formed(&self) -> (r: bool)
        ensures
            r == self.well_formed(),
    {
        let mut i: usize = 0;
        while i < self.pedestrians.len()
            invariant
                i <= self.pedestrians.len(),
                forall|n: int|
                    0 <= n < i && (#[trigger] self.pedestrians[n]).active ==> {
                        &&& self.pedestrians[n].destination_id < self.destinations.len()
                        &&& self.destinations[self.pedestrians[n].destination_id as int].points.len()
                            > 0
                    },
            decreases self.pedestrians.len() - i,
        {
            let p = &self.pedestrians[i];
            if p.active {
                if p.destination_id >= self.destinations.len() {
                    return false;
                }
                if self.destinations[p.destination_id].points.len() == 0 {
                    return false;
                }
            }
            i += 1;
        }
        let mut k: usize = 0;
        while k < self.obstacles.len()
            invariant
                k <= self.obstacles.len(),
                forall|n: int| 0 <= n < k ==> (#[trigger] self.obstacles[n]).points.len() > 0,
            decreases self.obstacles.len() - k,
        {
            if self.obstacles[k].points.len() == 0 {
                return false;
            }
            k += 1;
        }
        true
    }

    /// The acceleration of the pedestrian at `i`, which is active.
    pub fn acceleration<M: Forces>(&self, i: usize, m: &M) -> (acceleration: DVec2)
        requires
            self.well_formed(),
            i < self.pedestrians.len(),
            self.pedestrians[i as int].active,
        ensures
            self.acceleration_of(m, i as int, acceleration),
    {
        let dt = Scalar { bits: TIME_STEP_BITS };
        let p = &self.pedestrians[i];
        let target = nearest_point_on_path(
            p.position,
            self.destinations[p.destination_id].points.as_slice(),
            m,
        );
        let desired_move_dir = normalize_or_zero(vec_sub(target, p.position));
        let mut acceleration = m.goal(desired_move_dir, p);
        let ghost mut among: Seq<DVec2> = seq![acceleration];

        let mut j: usize = 0;
        while j < self.pedestrians.len()
            invariant
                j <= self.pedestrians.len(),
                i < self.pedestrians.len(),
                *p == self.pedestrians[i as int],
                dt.bits == TIME_STEP_BITS,
                among.len() == j + 1,
                among.last() == acceleration,
                call_ensures(M::goal, (m, desired_move_dir, p), among[0]),
                self.pedestrian_trace(m, i as int, desired_move_dir, among),
            decreases self.pedestrians.len() - j,
        {
            let ghost prev = acceleration;
            if j != i {
                let other = &self.pedestrians[j];
                if other.active {
                    let diff = vec_sub(p.position, other.position);
                    let distance = length(diff);
                    if within_reach(distance) {
                        let raw = m.pedestrian(p, other, diff, distance, dt);
                        let raw_length = length(raw);
                        let bound = m.sight_bound(raw_length);
                        let force = if dot(desired_move_dir, vec_neg(raw)).lt(bound) {
                            m.halved(raw)
                        } else {
                            raw
                        };
                        proof {
                            assert(felt_of(m, desired_move_dir, raw, raw_length, force));
                            assert(raw_length.alike(norm(raw)));
                            assert(felt(m, desired_move_dir, raw, force));
                        }
                        acceleration = vec_add(acceleration, force);
                        assert(pushed(m, desired_move_dir, raw, prev, acceleration));
                    }
                }
            }
            assert(pedestrian_step(
                m,
                self.pedestrians[i as int],
                i as int,
                self.pedestrians[j as int],
                j as int,
                desired_move_dir,
                prev,
                acceleration,
            ));
            proof {
                among = among.push(acceleration);
            }
            j += 1;
        }

        let ghost mut along: Seq<DVec2> = seq![acceleration];
        let mut k: usize = 0;
        while k < self.obstacles.len()
            invariant
                k <= self.obstacles.len(),
                self.well_formed(),
                i < self.pedestrians.len(),
                *p == self.pedestrians[i as int],
                along.len() == k + 1,
                along.last() == acceleration,
                along[0] == among.last(),
                self.obstacle_trace(m, p.position, along),
            decreases self.obstacles.len() - k,
        {
            let ghost prev = acceleration;
            let nearest_point = nearest_point_on_path(
                p.position,
                self.obstacles[k].points.as_slice(),
                m,
            );
            let diff = vec_sub(p.position, nearest_point);
            let distance = length(diff);
            if within_reach(distance) {
                let force = m.obstacle(diff, distance);
                acceleration = vec_add(acceleration, force);
            }
            assert(obstacle_step(
                m,
                p.position,
                self.obstacles[k as int].points@,
                prev,
                acceleration,
            ));
            proof {
                along = along.push(acceleration);
            }
            k += 1;
        }
        assert(self.past_obstacles(m, p.position, among.last(), acceleration));
        assert(self.accelerated_along(m, i as int, desired_move_dir, acceleration));
        acceleration
    }

    /// The first pass of a step: an acceleration for every active pedestrian,
    /// each from the crowd as it stands.
    pub fn accelerations<M: Forces>(&self, m: &M) -> (accelerations: Vec<Option<DVec2>>)
        requires
            self.well_formed(),
        ensures
            self.accelerations_of(m, accelerations@),
    {
        let mut accelerations: Vec<Option<DVec2>> = Vec::new();
        let mut i: usize = 0;
        while i < self.pedestrians.len()
            invariant
                i <= self.pedestrians.len(),
                self.well_formed(),
                accelerations.len() == i,
                forall|n: int|
                    0 <= n < i ==> match #[trigger] accelerations[n] {
                        Some(a) => self.pedestrians[n].active && self.acceleration_of(m, n, a),
                        None => !self.pedestrians[n].active,
                    },
            decreases self.pedestrians.len() - i,
        {
            if self.pedestrians[i].active {
                let a = self.acceleration(i, m);
                accelerations.push(Some(a));
            } else {
                accelerations.push(None);
            }
            i += 1;
        }
        accelerations
    }

    /// The second pass of a step: every active pedestrian is moved under its
    /// acceleration, and leaves the crowd's business where that brings it to
    /// its destination.
    pub fn advance<M: Forces>(&mut self, accelerations: &Vec<Option<DVec2>>, m: &M)
        requires
            old(self).well_formed(),
            accelerations.len() == old(self).pedestrians.len(),
            forall|i: int|
                0 <= i < accelerations.len() && old(self).pedestrians[i].active
                    ==> (#[trigger] accelerations[i]).is_some(),
        ensures
            old(self).advanced_to(m, accelerations@, *final(self)),
            final(self).well_formed(),
    {
        let dt = Scalar { bits: TIME_STEP_BITS };
        let mut i: usize = 0;
        while i < self.pedestrians.len()
            invariant
                i <= self.pedestrians.len(),
                dt.bits == TIME_STEP_BITS,
                old(self).well_formed(),
                accelerations.len() == old(self).pedestrians.len(),
                forall|n: int|
                    0 <= n < accelerations.len() && old(self).pedestrians[n].active
                        ==> (#[trigger] accelerations[n]).is_some(),
                self.obstacles == old(self).obstacles,
                self.destinations == old(self).destinations,
                self.pedestrians.len() == old(self).pedestrians.len(),
                forall|n: int|
                    i <= n < self.pedestrians.len() ==> #[trigger] self.pedestrians[n] == old(
                        self,
                    ).pedestrians[n],
                forall|n: int|
                    0 <= n < i ==> if old(self).pedestrians[n].active {
                        moved(
                            m,
                            old(self).pedestrians[n],
                            accelerations[n].unwrap(),
                            old(self).destinations[old(
                                self,
                            ).pedestrians[n].destination_id as int].points@,
                            #[trigger] self.pedestrians[n],
                        )
                    } else {
                        self.pedestrians[n] == old(self).pedestrians[n]
                    },
            decreases self.pedestrians.len() - i,
        {
            let p = &self.pedestrians[i];
            if p.active {
                let acceleration = accelerations[i].unwrap();
                let velocity = m.accelerate(p, acceleration, dt);
                let way = m.displacement(vec_add(velocity, p.velocity), dt);
                let position = vec_add(p.position, way);
                let target = nearest_point_on_path(
                    position,
                    self.destinations[p.destination_id].points.as_slice(),
                    m,
                );
                let distance = length_squared(vec_sub(target, position));
                let q = Pedestrian {
                    active: !has_arrived(distance),
                    position,
                    velocity,
                    desired_speed: p.desired_speed,
                    destination_id: p.destination_id,
                };
                proof {
                    let before = old(self).pedestrians[i as int];
                    let points = old(self).destinations[before.destination_id as int].points@;
                    assert(settled(m, before, velocity, position, points, q));
                    assert(carried(m, before, velocity, points, q));
                    assert(moved(m, before, acceleration, points, q));
                }
                self.pedestrians.set(i, q);
            }
            i += 1;
        }
    }

    /// One step of the crowd: every active pedestrian gets its acceleration
    /// from the crowd as it stands, and then each is moved by one time step.
    /// A pedestrian that is not active is left as it is.
    pub fn tick<M: Forces>(&mut self, m: &M)
        requires
            old(self).well_formed(),
        ensures
            old(self).stepped_to(m, *final(self)),
            final(self).well_formed(),
            final(self).obstacles == old(self).obstacles,
            final(self).destinations == old(self).destinations,
            final(self).pedestrians.len() == old(self).pedestrians.len(),
            forall|i: int|
                0 <= i < old(self).pedestrians.len() && !old(self).pedestrians[i].active ==> (
                #[trigger] final(self).pedestrians[i]) == old(self).pedestrians[i],
    {
        let accelerations = self.accelerations(m);
        self.advance(&accelerations, m);
    }
}

/// A pedestrian that is not active is not touched by a step: it keeps its
/// place and its velocity, and it is not active afterwards either.
pub proof fn lemma_inactive_is_frozen<M: Forces>(before: State, m: &M, after: State, i: int)
    requires
        before.stepped_to(m, after),
        0 <= i < before.pedestrians.len(),
        !before.pedestrians[i].active,
    ensures
        i < after.pedestrians.len(),
        after.pedestrians[i] == before.pedestrians[i],
        !after.pedestrians[i].active,
{
    let accelerations = choose|accelerations: Seq<Option<DVec2>>| #[trigger]
        before.accelerations_of(m, accelerations) && before.advanced_to(m, accelerations, after);
    assert(after.pedestrians[i] == before.pedestrians[i]);
}

/// A step changes neither the number of the pedestrians nor the obstacles
/// and destinations, nor where a pedestrian is bound for and how fast it
/// wishes to walk.
pub proof fn lemma_step_keeps_the_cast<M: Forces>(before: State, m: &M, after: State)
    requires
        before.stepped_to(m, after),
    ensures
        after.obstacles == before.obstacles,
        after.destinations == before.destinations,
        after.pedestrians.len() == before.pedestrians.len(),
        forall|i: int|
            0 <= i < before.pedestrians.len() ==> {
                &&& (#[trigger] after.pedestrians[i]).destination_id
                    == before.pedestrians[i].destination_id
                &&& after.pedestrians[i].desired_speed == before.pedestrians[i].desired_speed
            },
{
    let accelerations = choose|accelerations: Seq<Option<DVec2>>| #[trigger]
        before.accelerations_of(m, accelerations) && before.advanced_to(m, accelerations, after);
    assert forall|i: int| 0 <= i < before.pedestrians.len() implies {
        &&& (#[trigger] after.pedestrians[i]).destination_id
            == before.pedestrians[i].destination_id
        &&& after.pedestrians[i].desired_speed == before.pedestrians[i].desired_speed
    } by {
        if before.pedestrians[i].active {
            lemma_moved(
                m,
                before.pedestrians[i],
                accelerations[i].unwrap(),
                before.destinations[before.pedestrians[i].destination_id as int].points@,
                after.pedestrians[i],
            );
        }
    }
}

/// A pedestrian that has moved is bound for where it was bound for and wishes
/// to walk as fast as it did, and it is active unless it has arrived.
pub proof fn lemma_moved<M: Forces>(
    m: &M,
    p: Pedestrian,
    acceleration: DVec2,
    points: Seq<DVec2>,
    q: Pedestrian,
)
    requires
        moved(m, p, acceleration, points, q),
    ensures
        q.destination_id == p.destination_id,
        q.desired_speed == p.desired_speed,
        exists|target: DVec2| #[trigger]
            nearest_on_path(m, q.position, points, target) && q.active == !arrived(
                q.position,
                target,
            ),
{
    let velocity = choose|velocity: DVec2| #[trigger]
        call_ensures(
            M::accelerate,
            (m, &p, acceleration, Scalar { bits: TIME_STEP_BITS }),
            velocity,
        ) && carried(m, p, velocity, points, q);
    let way = choose|way: DVec2| #[trigger]
        call_ensures(
            M::displacement,
            (m, sum(velocity, p.velocity), Scalar { bits: TIME_STEP_BITS }),
            way,
        ) && settled(m, p, velocity, sum(p.position, way), points, q);
    let position = sum(p.position, way);
    let target = choose|target: DVec2| #[trigger]
        nearest_on_path(m, position, points, target) && q == (Pedestrian {
            active: !arrived(position, target),
            position,
            velocity,
            desired_speed: p.desired_speed,
            destination_id: p.destination_id,
        });
    assert(nearest_on_path(m, q.position, points, target));
}

/// An active pedestrian is active after a step unless the step has brought
/// it to its destination: unless the square of its distance from the nearest
/// point of the destination is below the arrival bound.
pub proof fn lemma_arrival_ends_activity<M: Forces>(before: State, m: &M, after: State, i: int)
    requires
        before.stepped_to(m, after),
        0 <= i < before.pedestrians.len(),
        before.pedestrians[i].active,
    ensures
        i < after.pedestrians.len(),
        exists|target: DVec2| #[trigger]
            nearest_on_path(
                m,
                after.pedestrians[i].position,
                before.destinations[before.pedestrians[i].destination_id as int].points@,
                target,
            ) && after.pedestrians[i].active == !arrived(after.pedestrians[i].position, target),
{
    let accelerations = choose|accelerations: Seq<Option<DVec2>>| #[trigger]
        before.accelerations_of(m, accelerations) && before.advanced_to(m, accelerations, after);
    let p = before.pedestrians[i];
    let points = before.destinations[p.destination_id as int].points@;
    lemma_moved(m, p, accelerations[i].unwrap(), points, after.pedestrians[i]);
}

/// Two pedestrians in one place exert no force on each other, and neither
/// does a pedestrian that is not active or one beyond the interaction radius:
/// the acceleration is as it was.
pub proof fn lemma_unfelt_exerts_no_force<M: Forces>(
    m: &M,
    p: Pedestrian,
    i: int,
    other: Pedestrian,
    j: int,
    dir: DVec2,
    prev: DVec2,
    next: DVec2,
)
    requires
        pedestrian_step(m, p, i, other, j, dir, prev, next),
        norm(difference(p.position, other.position)).zero() || !other.active || (Scalar {
            bits: INTERACTION_RADIUS_BITS,
        }).spec_lt(norm(difference(p.position, other.position))),
    ensures
        next == prev,
{
}

/// A pedestrian that feels no other pedestrian and no obstacle is
/// accelerated as if it were alone: towards the nearest point of its
/// destination and by nothing else.
pub proof fn lemma_isolated_acceleration<M: Forces>(
    state: State,
    m: &M,
    i: int,
    acceleration: DVec2,
)
    requires
        0 <= i < state.pedestrians.len(),
        state.acceleration_of(m, i, acceleration),
        forall|j: int|
            0 <= j < state.pedestrians.len() ==> !feels(
                state.pedestrians[i],
                i,
                #[trigger] state.pedestrians[j],
                j,
            ),
        forall|k: int, nearest: DVec2|
            0 <= k < state.obstacles.len() && #[trigger] nearest_on_path(
                m,
                state.pedestrians[i].position,
                state.obstacles[k].points@,
                nearest,
            ) ==> !interacts(norm(difference(state.pedestrians[i].position, nearest))),
    ensures
        exists|target: DVec2| #[trigger]
            nearest_on_path(
                m,
                state.pedestrians[i].position,
                state.destinations[state.pedestrians[i].destination_id as int].points@,
                target,
            ) && call_ensures(
                M::goal,
                (
                    m,
                    direction(difference(target, state.pedestrians[i].position)),
                    &state.pedestrians[i],
                ),
                acceleration,
            ),
{
    let p = state.pedestrians[i];
    let target = choose|target: DVec2| #[trigger]
        nearest_on_path(
            m,
            p.position,
            state.destinations[p.destination_id as int].points@,
            target,
        ) && state.accelerated_along(
            m,
            i,
            direction(difference(target, p.position)),
            acceleration,
        );
    let dir = direction(difference(target, p.position));
    let among = choose|among: Seq<DVec2>| #[trigger]
        state.pedestrian_trace(m, i, dir, among) && among.len() == state.pedestrians.len() + 1
            && call_ensures(M::goal, (m, dir, &state.pedestrians[i]), among[0])
            && state.past_obstacles(m, state.pedestrians[i].position, among.last(), acceleration);
    let along = choose|along: Seq<DVec2>| #[trigger]
        state.obstacle_trace(m, p.position, along) && along.len() == state.obstacles.len() + 1
            && along[0] == among.last() && along.last() == acceleration;
    lemma_quiet_pedestrians(state, m, i, dir, among, among.len() - 1);
    lemma_quiet_obstacles(state, m, p.position, along, along.len() - 1);
}

proof fn lemma_quiet_pedestrians<M: Forces>(
    state: State,
    m: &M,
    i: int,
    dir: DVec2,
    among: Seq<DVec2>,
    n: int,
)
    requires
        0 <= i < state.pedestrians.len(),
        state.pedestrian_trace(m, i, dir, among),
        0 <= n < among.len(),
        forall|j: int|
            0 <= j < state.pedestrians.len() ==> !feels(
                state.pedestrians[i],
                i,
                #[trigger] state.pedestrians[j],
                j,
            ),
    ensures
        among[n] == among[0],
    decreases n,
{
    if n > 0 {
        lemma_quiet_pedestrians(state, m, i, dir, among, n - 1);
        assert(pedestrian_step(
            m,
            state.pedestrians[i],
            i,
            state.pedestrians[n - 1],
            n - 1,
            dir,
            among[n - 1],
            among[n - 1 + 1],
        ));
    }
}

proof fn lemma_quiet_obstacles<M: Forces>(
    state: State,
    m: &M,
    position: DVec2,
    along: Seq<DVec2>,
    n: int,
)
    requires
        state.obstacle_trace(m, position, along),
        0 <= n < along.len(),
        forall|k: int, nearest: DVec2|
            0 <= k < state.obstacles.len() && #[trigger] nearest_on_path(
                m,
                position,
                state.obstacles[k].points@,
                nearest,
            ) ==> !interacts(norm(difference(position, nearest))),
    ensures
        along[n] == along[0],
    decreases n,
{
    if n > 0 {
        lemma_quiet_obstacles(state, m, position, along, n - 1);
        assert(obstacle_step(
            m,
            position,
            state.obstacles[n - 1].points@,
            along[n - 1],
            along[n - 1 + 1],
        ));
    }
}

} // verus!
