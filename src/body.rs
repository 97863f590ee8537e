use vstd::prelude::*;

use crate::geometry::Point;

verus! {

/// Largest magnitude of a coordinate, velocity or acceleration component; the
/// integrator and the solver saturate at it.
pub const LIMIT: i64 = 1073741824;

/// Largest accepted mass.
pub const MAX_MASS: i64 = 1048576;

/// A body that crosses a wall is put back at this many thousandths of the extent.
pub const NUDGE_PERMILLE: i64 = 999;

pub open spec fn in_range(v: int) -> bool {
    -LIMIT <= v <= LIMIT
}

pub open spec fn vec_in_range(p: Point) -> bool {
    in_range(p.x as int) && in_range(p.y as int)
}

/// `v` saturated to the working range.
pub open spec fn clamp(v: int) -> int {
    if v < -LIMIT {
        -LIMIT as int
    } else if v > LIMIT {
        LIMIT as int
    } else {
        v
    }
}

/// Division rounding toward zero, by a positive divisor.
pub open spec fn div_trunc(a: int, b: int) -> int {
    if a >= 0 {
        a / b
    } else {
        -((-a) / b)
    }
}

pub open spec fn abs(v: int) -> int {
    if v < 0 {
        -v
    } else {
        v
    }
}

/// Why a body could not be made.
#[derive(Clone, Copy, Debug, PartialEq, Eq, Structural)]
pub enum BodyError {
    /// The mass is zero or negative.
    NonPositiveMass,
    /// The mass, the radius or a component lies outside the working range.
    OutOfRange,
}

/// The physical state of one body: integer position, velocity and
/// acceleration in world units and ticks, a positive mass and a collision radius.
#[derive(Clone, Copy, Debug, PartialEq, Eq, Structural)]
pub struct Physics {
    pub position: Point,
    pub velocity: Point,
    pub acceleration: Point,
    pub mass: i64,
    pub collider_radius: i64,
}

impl Physics {
    /// Positive mass, and every quantity inside the working range.
    pub open spec fn valid(self) -> bool {
        &&& vec_in_range(self.position)
        &&& vec_in_range(self.velocity)
        &&& vec_in_range(self.acceleration)
        &&& 0 < self.mass <= MAX_MASS
        &&& 0 <= self.collider_radius <= LIMIT
    }

    /// A body at rest with no acceleration; the mass is checked first.
    pub fn new(position: Point, velocity: Point, mass: i64, collider_radius: i64) -> (r: Result<
        Physics,
        BodyError,
    >)
        ensures
            mass <= 0 ==> r == Err::<Physics, BodyError>(BodyError::NonPositiveMass),
            mass > 0 && !(mass <= MAX_MASS && 0 <= collider_radius <= LIMIT && vec_in_range(position)
                && vec_in_range(velocity)) ==> r == Err::<Physics, BodyError>(
                BodyError::OutOfRange,
            ),
            mass > 0 && mass <= MAX_MASS && 0 <= collider_radius <= LIMIT && vec_in_range(position)
                && vec_in_range(velocity) ==> r == Ok::<Physics, BodyError>(
                Physics {
                    position,
                    velocity,
                    acceleration: Point { x: 0, y: 0 },
                    mass,
                    collider_radius,
                },
            ),
            r is Ok ==> r->Ok_0.valid(),
    {
        if mass <= 0 {
            return Err(BodyError::NonPositiveMass);
        }
        if mass > MAX_MASS || collider_radius < 0 || collider_radius > LIMIT || !point_in_range(position)
            || !point_in_range(velocity) {
            return Err(BodyError::OutOfRange);
        }
        Ok(Physics { position, velocity, acceleration: Point { x: 0, y: 0 }, mass, collider_radius })
    }

    /// Sets the acceleration; components outside the working range are refused.
    pub fn set_acceleration(&mut self, acceleration: Point) -> (r: Result<(), BodyError>)
        requires
            old(self).valid(),
        ensures
            final(self).valid(),
            vec_in_range(acceleration) ==> r is Ok && *final(self) == (Physics {
                acceleration,
                ..*old(self)
            }),
            !vec_in_range(acceleration) ==> r == Err::<(), BodyError>(BodyError::OutOfRange)
                && *final(self) == *old(self),
    {
        if !point_in_range(acceleration) {
            return Err(BodyError::OutOfRange);
        }
        self.acceleration = acceleration;
        Ok(())
    }

    /// Semi-implicit Euler over `dt` ticks: the velocity takes the acceleration
    /// first, then the position takes the new velocity; both saturate.
    pub fn integrate(&mut self, dt: i64)
        requires
            old(self).valid(),
            0 <= dt,
        ensures
            *final(self) == integrated(*old(self), dt as int),
            final(self).valid(),
    {
        proof {
            lemma_mul_bounded(self.acceleration.x as int, dt as int, LIMIT as int, i64::MAX as int);
            lemma_mul_bounded(self.acceleration.y as int, dt as int, LIMIT as int, i64::MAX as int);
        }
        let vx = clamp_i128(self.velocity.x as i128 + self.acceleration.x as i128 * dt as i128);
        let vy = clamp_i128(self.velocity.y as i128 + self.acceleration.y as i128 * dt as i128);
        proof {
            lemma_mul_bounded(vx as int, dt as int, LIMIT as int, i64::MAX as int);
            lemma_mul_bounded(vy as int, dt as int, LIMIT as int, i64::MAX as int);
        }
        let px = clamp_i128(self.position.x as i128 + vx as i128 * dt as i128);
        let py = clamp_i128(self.position.y as i128 + vy as i128 * dt as i128);
        self.velocity = Point { x: vx, y: vy };
        self.position = Point { x: px, y: py };
    }

    /// The boundary policy: on each axis where the body lies beyond the extent,
    /// the velocity component is reversed and scaled by `wall_permille`
    /// thousandths, and the position is put back just inside the wall on its side.
    pub fn apply_boundary(&mut self, x_extent: i64, y_extent: i64, wall_permille: i64)
        requires
            old(self).valid(),
            0 < x_extent < LIMIT,
            0 < y_extent < LIMIT,
            1 <= wall_permille <= 1000,
        ensures
            *final(self) == bounded(*old(self), x_extent as int, y_extent as int, wall_permille as int),
            final(self).valid(),
    {
        let (px, vx) = reflect_axis(self.position.x, self.velocity.x, x_extent, wall_permille);
        let (py, vy) = reflect_axis(self.position.y, self.velocity.y, y_extent, wall_permille);
        self.position = Point { x: px, y: py };
        self.velocity = Point { x: vx, y: vy };
    }
}

/// The body after `integrate(dt)`.
pub open spec fn integrated(b: Physics, dt: int) -> Physics {
    let vx = clamp(b.velocity.x + b.acceleration.x * dt);
    let vy = clamp(b.velocity.y + b.acceleration.y * dt);
    Physics {
        velocity: Point { x: vx as i64, y: vy as i64 },
        position: Point {
            x: clamp(b.position.x + vx * dt) as i64,
            y: clamp(b.position.y + vy * dt) as i64,
        },
        ..b
    }
}

/// Position and velocity on one axis after the boundary policy.
pub open spec fn reflected(p: int, v: int, extent: int, wall_permille: int) -> (int, int) {
    if abs(p) > extent {
        let inside = extent * NUDGE_PERMILLE / 1000;
        (if p > 0 {
            inside
        } else {
            -inside
        }, -v + div_trunc(v * (1000 - wall_permille), 1000))
    } else {
        (p, v)
    }
}

/// The body after `apply_boundary`.
pub open spec fn bounded(b: Physics, x_extent: int, y_extent: int, wall_permille: int) -> Physics {
    let (px, vx) = reflected(b.position.x as int, b.velocity.x as int, x_extent, wall_permille);
    let (py, vy) = reflected(b.position.y as int, b.velocity.y as int, y_extent, wall_permille);
    Physics {
        position: Point { x: px as i64, y: py as i64 },
        velocity: Point { x: vx as i64, y: vy as i64 },
        ..b
    }
}

/// A product is bounded by the product of its factors' bounds.
pub proof fn lemma_mul_bounded(a: int, b: int, ba: int, bb: int)
    requires
        -ba <= a <= ba,
        -bb <= b <= bb,
    ensures
        -(ba * bb) <= a * b <= ba * bb,
{
    assert(-(ba * bb) <= a * b <= ba * bb) by (nonlinear_arith)
        requires
            -ba <= a <= ba,
            -bb <= b <= bb,
    ;
}

fn point_in_range(p: Point) -> (r: bool)
    ensures
        r == vec_in_range(p),
{
    -LIMIT <= p.x && p.x <= LIMIT && -LIMIT <= p.y && p.y <= LIMIT
}

/// `v` saturated to the working range.
pub fn clamp_i128(v: i128) -> (r: i64)
    ensures
        r == clamp(v as int),
        in_range(r as int),
{
    if v < -(LIMIT as i128) {
        -LIMIT
    } else if v > LIMIT as i128 {
        LIMIT
    } else {
        v as i64
    }
}

/// `a / b` rounded toward zero, for a positive `b`.
pub fn div_trunc_i128(a: i128, b: i128) -> (r: i128)
    requires
        b > 0,
        a > i128::MIN,
    ensures
        r == div_trunc(a as int, b as int),
        abs(r as int) <= abs(a as int),
{
    if a >= 0 {
        proof {
            vstd::arithmetic::div_mod::lemma_div_is_ordered_by_denominator(a as int, 1, b as int);
        }
        a / b
    } else {
        proof {
            vstd::arithmetic::div_mod::lemma_div_is_ordered_by_denominator(-a as int, 1, b as int);
        }
        -((-a) / b)
    }
}

fn reflect_axis(p: i64, v: i64, extent: i64, wall_permille: i64) -> (r: (i64, i64))
    requires
        in_range(p as int),
        in_range(v as int),
        0 < extent < LIMIT,
        1 <= wall_permille <= 1000,
    ensures
        r.0 == reflected(p as int, v as int, extent as int, wall_permille as int).0,
        r.1 == reflected(p as int, v as int, extent as int, wall_permille as int).1,
        in_range(r.0 as int),
        in_range(r.1 as int),
{
    if p > extent || p < -extent {
        let inside = extent * NUDGE_PERMILLE / 1000;
        proof {
            lemma_mul_bounded(v as int, (1000 - wall_permille) as int, LIMIT as int, 1000);
        }
        let kept = div_trunc_i128(v as i128 * (1000 - wall_permille) as i128, 1000);
        proof {
            assert(abs(v * (1000 - wall_permille)) <= abs(v as int) * 1000) by (nonlinear_arith)
                requires
                    0 <= 1000 - wall_permille < 1000,
            ;
            assert(abs(kept as int) <= abs(v as int)) by {
                let n = v * (1000 - wall_permille);
                if n >= 0 {
                    vstd::arithmetic::div_mod::lemma_div_is_ordered(n, abs(v as int) * 1000, 1000);
                    vstd::arithmetic::div_mod::lemma_div_multiples_vanish(abs(v as int), 1000);
                } else {
                    vstd::arithmetic::div_mod::lemma_div_is_ordered(-n, abs(v as int) * 1000, 1000);
                    vstd::arithmetic::div_mod::lemma_div_multiples_vanish(abs(v as int), 1000);
                }
            }
            assert(0 <= inside <= extent) by {
                vstd::arithmetic::div_mod::lemma_div_is_ordered(extent * 999, extent * 1000, 1000);
                vstd::arithmetic::div_mod::lemma_div_multiples_vanish(extent as int, 1000);
            }
        }
        let nv = (-(v as i128) + kept) as i64;
        proof {
            assert(in_range(nv as int)) by {
                if v >= 0 {
                    assert(v * (1000 - wall_permille) >= 0) by (nonlinear_arith)
                        requires v >= 0, 1000 - wall_permille >= 0;
                } else {
                    assert(v * (1000 - wall_permille) <= 0) by (nonlinear_arith)
                        requires v < 0, 1000 - wall_permille >= 0;
                }
            }
        }
        if p > 0 {
            (inside, nv)
        } else {
            (-inside, nv)
        }
    } else {
        (p, v)
    }
}

} // verus!
