use vstd::prelude::*;

use crate::body::{
    abs, clamp, clamp_i128, div_trunc, div_trunc_i128, in_range, lemma_mul_bounded, Physics, LIMIT,
    MAX_MASS,
};
use crate::geometry::Point;

verus! {

/// Restitution is given in thousandths: 0 loses all normal speed, 1000 keeps it.
pub const PERMILLE: i64 = 1000;

pub open spec fn is_floor_sqrt(n: int, r: int) -> bool {
    0 <= r && r * r <= n < (r + 1) * (r + 1)
}

/// The largest integer whose square does not exceed `n`.
pub open spec fn floor_sqrt(n: int) -> int {
    choose|r: int| is_floor_sqrt(n, r)
}

proof fn lemma_floor_sqrt_unique(n: int, r: int, s: int)
    requires
        is_floor_sqrt(n, r),
        is_floor_sqrt(n, s),
    ensures
        r == s,
{
    if r < s {
        assert((r + 1) * (r + 1) <= s * s) by (nonlinear_arith)
            requires
                0 <= r < s,
        ;
    } else if s < r {
        assert((s + 1) * (s + 1) <= r * r) by (nonlinear_arith)
            requires
                0 <= s < r,
        ;
    }
}

/// The floor square root of `n`.
pub fn isqrt(n: u64) -> (r: u64)
    ensures
        r == floor_sqrt(n as int),
        is_floor_sqrt(n as int, r as int),
{
    let mut lo: u64 = 0;
    let mut hi: u64 = 4294967296;
    assert(hi * hi > n) by (nonlinear_arith)
        requires
            hi == 4294967296,
            n <= u64::MAX,
    ;
    while hi - lo > 1
        invariant
            lo < hi <= 4294967296,
            lo * lo <= n,
            n < hi * hi,
        decreases hi - lo,
    {
        let mid = lo + (hi - lo) / 2;
        assert(mid * mid <= 4294967296 * 4294967296) by (nonlinear_arith)
            requires
                mid <= 4294967296,
        ;
        if (mid as u128) * (mid as u128) <= n as u128 {
            lo = mid;
        } else {
            hi = mid;
        }
    }
    proof {
        assert(is_floor_sqrt(n as int, lo as int));
        let c = floor_sqrt(n as int);
        assert(is_floor_sqrt(n as int, c));
        lemma_floor_sqrt_unique(n as int, lo as int, c);
    }
    lo
}

/// `a / b` rounded to the nearest integer, halves away from zero, for a
/// positive `b`.
pub open spec fn div_round(a: int, b: int) -> int {
    if a >= 0 {
        (a + b / 2) / b
    } else {
        -((-a + b / 2) / b)
    }
}

/// `a / b` rounded to the nearest integer, halves away from zero.
pub fn div_round_i128(a: i128, b: i128) -> (r: i128)
    requires
        b > 0,
        -0x1_0000_0000_0000_0000_0000_0000 <= a <= 0x1_0000_0000_0000_0000_0000_0000,
        b <= 0x1_0000_0000_0000_0000_0000_0000,
    ensures
        r == div_round(a as int, b as int),
        abs(r as int) <= abs(a as int) + b,
{
    let half = b / 2;
    if a >= 0 {
        proof {
            vstd::arithmetic::div_mod::lemma_div_is_ordered_by_denominator((a + half) as int, 1, b as int);
        }
        (a + half) / b
    } else {
        proof {
            vstd::arithmetic::div_mod::lemma_div_is_ordered_by_denominator((-a + half) as int, 1, b as int);
        }
        -((-a + half) / b)
    }
}

/// The smallest integer whose square is at least `n`.
pub open spec fn ceil_sqrt(n: int) -> int {
    if floor_sqrt(n) * floor_sqrt(n) == n {
        floor_sqrt(n)
    } else {
        floor_sqrt(n) + 1
    }
}

/// The two bodies after one resolution of their contact with restitution
/// `e` thousandths. Nothing changes when they share a centre, lie farther
/// apart than the sum of their radii, or already separate along the normal.
/// The overlap `depth` is measured with the distance rounded up. Impulse
/// quotients round toward zero, position corrections to the nearest unit. Otherwise, with `d` the
/// vector from the first centre to the second and `vn` the relative velocity
/// along `d` (scaled by `|d|`), each velocity takes the impulse
/// `(1 + e) * m1 * m2 / (m1 + m2)` along the unit normal divided by its own
/// mass, and each position moves apart by its inverse-mass share of `depth`.
/// Every result saturates.
pub open spec fn resolved(a: Physics, b: Physics, e: int) -> (Physics, Physics) {
    let dx = b.position.x - a.position.x;
    let dy = b.position.y - a.position.y;
    let d2 = dx * dx + dy * dy;
    let reach = a.collider_radius + b.collider_radius;
    let dist = ceil_sqrt(d2);
    let depth = reach - dist;
    let vn = (b.velocity.x - a.velocity.x) * dx + (b.velocity.y - a.velocity.y) * dy;
    if d2 == 0 || d2 > reach * reach || vn > 0 {
        (a, b)
    } else {
        let k = (PERMILLE + e) * (-vn);
        let den = PERMILLE * (a.mass + b.mass) * d2;
        let cden = (a.mass + b.mass) * dist;
        (
            Physics {
                velocity: Point {
                    x: clamp(a.velocity.x - div_trunc(k * b.mass * dx, den)) as i64,
                    y: clamp(a.velocity.y - div_trunc(k * b.mass * dy, den)) as i64,
                },
                position: Point {
                    x: clamp(a.position.x - div_round(depth * b.mass * dx, cden)) as i64,
                    y: clamp(a.position.y - div_round(depth * b.mass * dy, cden)) as i64,
                },
                ..a
            },
            Physics {
                velocity: Point {
                    x: clamp(b.velocity.x + div_trunc(k * a.mass * dx, den)) as i64,
                    y: clamp(b.velocity.y + div_trunc(k * a.mass * dy, den)) as i64,
                },
                position: Point {
                    x: clamp(b.position.x + div_round(depth * a.mass * dx, cden)) as i64,
                    y: clamp(b.position.y + div_round(depth * a.mass * dy, cden)) as i64,
                },
                ..b
            },
        )
    }
}

/// Resolves one contact between two bodies: impulse along the normal, then
/// positional correction.
pub fn resolve_pair(a: &mut Physics, b: &mut Physics, restitution_permille: i64)
    requires
        old(a).valid(),
        old(b).valid(),
        0 <= restitution_permille <= PERMILLE,
    ensures
        (*final(a), *final(b)) == resolved(*old(a), *old(b), restitution_permille as int),
        final(a).valid(),
        final(b).valid(),
{
    let ghost lim = LIMIT as int;
    let dx = b.position.x as i128 - a.position.x as i128;
    let dy = b.position.y as i128 - a.position.y as i128;
    proof {
        lemma_mul_bounded(dx as int, dx as int, 2 * lim, 2 * lim);
        lemma_mul_bounded(dy as int, dy as int, 2 * lim, 2 * lim);
        assert(dx * dx >= 0 && dy * dy >= 0) by (nonlinear_arith);
    }
    let d2 = dx * dx + dy * dy;
    let reach = a.collider_radius as i128 + b.collider_radius as i128;
    proof {
        lemma_mul_bounded(reach as int, reach as int, 2 * lim, 2 * lim);
    }
    let f = isqrt(d2 as u64) as i128;
    proof {
        assert(f <= 4294967296) by (nonlinear_arith)
            requires
                f * f <= d2,
                d2 <= 8 * 1073741824 * 1073741824,
                f >= 0,
        ;
    }
    let dist = if f * f == d2 {
        f
    } else {
        f + 1
    };
    let depth = reach - dist;
    let rvx = b.velocity.x as i128 - a.velocity.x as i128;
    let rvy = b.velocity.y as i128 - a.velocity.y as i128;
    proof {
        lemma_mul_bounded(rvx as int, dx as int, 2 * lim, 2 * lim);
        lemma_mul_bounded(rvy as int, dy as int, 2 * lim, 2 * lim);
    }
    let vn = rvx * dx + rvy * dy;
    if d2 == 0 || d2 > reach * reach || vn > 0 {
        return ;
    }
    proof {
        assert(f <= reach) by (nonlinear_arith)
            requires
                f * f <= d2,
                d2 <= reach * reach,
                f >= 0,
                reach >= 0,
        ;
        if f * f != d2 {
            assert(f < reach) by (nonlinear_arith)
                requires
                    f * f < d2,
                    d2 <= reach * reach,
                    f >= 0,
                    reach >= 0,
            ;
        }
        assert(0 <= depth <= 2 * lim);
    }
    let e = restitution_permille as i128;
    let ma = a.mass as i128;
    let mb = b.mass as i128;
    let ghost bound_vn = 8 * lim * lim;
    proof {
        lemma_mul_bounded((PERMILLE + e) as int, -vn as int, 2 * PERMILLE as int, bound_vn);
    }
    let k = (PERMILLE as i128 + e) * (-vn);
    let ghost bound_k = 2 * PERMILLE as int * bound_vn;
    proof {
        lemma_mul_bounded(k as int, mb as int, bound_k, MAX_MASS as int);
        lemma_mul_bounded(k as int, ma as int, bound_k, MAX_MASS as int);
        lemma_mul_bounded((k * mb) as int, dx as int, bound_k * MAX_MASS, 2 * lim);
        lemma_mul_bounded((k * mb) as int, dy as int, bound_k * MAX_MASS, 2 * lim);
        lemma_mul_bounded((k * ma) as int, dx as int, bound_k * MAX_MASS, 2 * lim);
        lemma_mul_bounded((k * ma) as int, dy as int, bound_k * MAX_MASS, 2 * lim);
        lemma_mul_bounded(PERMILLE * (ma + mb), d2 as int, PERMILLE * 2 * MAX_MASS, 8 * lim * lim);
        assert(PERMILLE * (ma + mb) * d2 > 0) by (nonlinear_arith)
            requires
                ma + mb > 0,
                d2 > 0,
        ;
        if f == 0 {
            assert(f * f == 0) by (nonlinear_arith)
                requires
                    f == 0,
            ;
            assert(dist == 1);
        }
        assert(dist >= 1);
        lemma_mul_bounded((ma + mb) as int, dist as int, 2 * MAX_MASS as int, 8 * lim * lim);
        assert((ma + mb) * dist > 0) by (nonlinear_arith)
            requires
                ma + mb > 0,
                dist > 0,
        ;
        lemma_mul_bounded(depth as int, mb as int, 2 * lim, MAX_MASS as int);
        lemma_mul_bounded(depth as int, ma as int, 2 * lim, MAX_MASS as int);
        lemma_mul_bounded((depth * mb) as int, dx as int, 2 * lim * MAX_MASS, 2 * lim);
        lemma_mul_bounded((depth * mb) as int, dy as int, 2 * lim * MAX_MASS, 2 * lim);
        lemma_mul_bounded((depth * ma) as int, dx as int, 2 * lim * MAX_MASS, 2 * lim);
        lemma_mul_bounded((depth * ma) as int, dy as int, 2 * lim * MAX_MASS, 2 * lim);
    }
    let den = PERMILLE as i128 * (ma + mb) * d2;
    let cden = (ma + mb) * dist;
    let ivax = div_trunc_i128(k * mb * dx, den);
    let ivay = div_trunc_i128(k * mb * dy, den);
    let ivbx = div_trunc_i128(k * ma * dx, den);
    let ivby = div_trunc_i128(k * ma * dy, den);
    let cax = div_round_i128(depth * mb * dx, cden);
    let cay = div_round_i128(depth * mb * dy, cden);
    let cbx = div_round_i128(depth * ma * dx, cden);
    let cby = div_round_i128(depth * ma * dy, cden);
    a.velocity = Point {
        x: clamp_i128(a.velocity.x as i128 - ivax),
        y: clamp_i128(a.velocity.y as i128 - ivay),
    };
    a.position = Point {
        x: clamp_i128(a.position.x as i128 - cax),
        y: clamp_i128(a.position.y as i128 - cay),
    };
    b.velocity = Point {
        x: clamp_i128(b.velocity.x as i128 + ivbx),
        y: clamp_i128(b.velocity.y as i128 + ivby),
    };
    b.position = Point {
        x: clamp_i128(b.position.x as i128 + cbx),
        y: clamp_i128(b.position.y as i128 + cby),
    };
}

/// Division of an exact multiple rounds nowhere.
proof fn lemma_div_trunc_exact(c: int, q: int)
    requires
        q > 0,
    ensures
        div_trunc(c * q, q) == c,
{
    if c >= 0 {
        assert(c * q >= 0) by (nonlinear_arith)
            requires
                c >= 0,
                q > 0,
        ;
        vstd::arithmetic::div_mod::lemma_div_multiples_vanish(c, q);
        assert(q * c == c * q) by (nonlinear_arith);
    } else {
        assert(c * q < 0) by (nonlinear_arith)
            requires
                c < 0,
                q > 0,
        ;
        assert(-(c * q) == (-c) * q) by (nonlinear_arith);
        assert(q * (-c) == (-c) * q) by (nonlinear_arith);
        vstd::arithmetic::div_mod::lemma_div_multiples_vanish(-c, q);
    }
}

/// Two bodies of equal mass that meet head-on along the x axis and
/// resolve with restitution 1 exchange their velocities exactly, so the total
/// momentum is kept.
pub proof fn equal_masses_swap_velocities(a: Physics, b: Physics)
    requires
        a.valid(),
        b.valid(),
        a.mass == b.mass,
        a.position.y == b.position.y,
        a.velocity.y == 0,
        b.velocity.y == 0,
        a.position.x != b.position.x,
        abs(b.position.x - a.position.x) <= a.collider_radius + b.collider_radius,
        (b.velocity.x - a.velocity.x) * (b.position.x - a.position.x) <= 0,
    ensures
        resolved(a, b, PERMILLE as int).0.velocity == b.velocity,
        resolved(a, b, PERMILLE as int).1.velocity == a.velocity,
        a.mass * resolved(a, b, PERMILLE as int).0.velocity.x + b.mass * resolved(
            a,
            b,
            PERMILLE as int,
        ).1.velocity.x == a.mass * a.velocity.x + b.mass * b.velocity.x,
{
    let dx = b.position.x - a.position.x;
    let d2 = dx * dx + 0 * 0;
    let m = a.mass as int;
    assert(is_floor_sqrt(d2, abs(dx))) by (nonlinear_arith)
        requires
            d2 == dx * dx,
            abs(dx) == (if dx < 0 {
                -dx
            } else {
                dx
            }),
    ;
    lemma_floor_sqrt_unique(d2, abs(dx), floor_sqrt(d2));
    let reach = a.collider_radius + b.collider_radius;
    assert(abs(dx) * abs(dx) == d2) by (nonlinear_arith)
        requires
            d2 == dx * dx,
            abs(dx) == (if dx < 0 {
                -dx
            } else {
                dx
            }),
    ;
    assert(d2 <= reach * reach) by (nonlinear_arith)
        requires
            abs(dx) * abs(dx) == d2,
            0 <= abs(dx) <= reach,
    ;
    let rvx = b.velocity.x - a.velocity.x;
    let vn = rvx * dx + 0 * 0;
    let k = (PERMILLE + PERMILLE) * (-vn);
    let den = PERMILLE * (m + m) * d2;
    assert(d2 > 0) by (nonlinear_arith)
        requires
            dx != 0,
            d2 == dx * dx,
    ;
    assert(den > 0) by (nonlinear_arith)
        requires
            den == PERMILLE * (m + m) * d2,
            m > 0,
            d2 > 0,
    ;
    assert(k * m * dx == (-rvx) * den) by (nonlinear_arith)
        requires
            k == 2000 * (-vn),
            vn == rvx * dx,
            den == 1000 * (m + m) * d2,
            d2 == dx * dx,
    ;
    assert(k * m * 0 == 0 * den) by (nonlinear_arith);
    lemma_div_trunc_exact(-rvx, den);
    lemma_div_trunc_exact(0, den);
    assert(m * b.velocity.x + m * a.velocity.x == m * a.velocity.x + m * b.velocity.x) by (nonlinear_arith);
}

/// The bodies after resolving each pair of `pairs` in order; a pair whose
/// first handle is not below the second, or whose second is not a body, is
/// passed over.
pub open spec fn resolve_seq(bodies: Seq<Physics>, pairs: Seq<(u64, u64)>, e: int) -> Seq<
    Physics,
>
    decreases pairs.len(),
{
    if pairs.len() == 0 {
        bodies
    } else {
        let prev = resolve_seq(bodies, pairs.drop_last(), e);
        let a = pairs.last().0 as int;
        let b = pairs.last().1 as int;
        if a < b < prev.len() {
            let r = resolved(prev[a], prev[b], e);
            prev.update(a, r.0).update(b, r.1)
        } else {
            prev
        }
    }
}

/// The bodies after `rounds` passes of `resolve_seq` over the same pairs.
pub open spec fn solve_rounds(bodies: Seq<Physics>, pairs: Seq<(u64, u64)>, e: int, rounds: nat) -> Seq<
    Physics,
>
    decreases rounds,
{
    if rounds == 0 {
        bodies
    } else {
        resolve_seq(solve_rounds(bodies, pairs, e, (rounds - 1) as nat), pairs, e)
    }
}

pub open spec fn all_valid(bodies: Seq<Physics>) -> bool {
    forall|i: int| 0 <= i < bodies.len() ==> (#[trigger] bodies[i]).valid()
}

/// One pass of the narrow phase: resolves every pair in order.
pub fn resolve_pairs(bodies: &mut Vec<Physics>, pairs: &Vec<(u64, u64)>, restitution_permille: i64)
    requires
        all_valid(old(bodies)@),
        0 <= restitution_permille <= PERMILLE,
    ensures
        final(bodies)@ == resolve_seq(old(bodies)@, pairs@, restitution_permille as int),
        all_valid(final(bodies)@),
{
    let ghost init = bodies@;
    let mut j: usize = 0;
    while j < pairs.len()
        invariant
            0 <= j <= pairs@.len(),
            bodies@ == resolve_seq(init, pairs@.subrange(0, j as int), restitution_permille as int),
            all_valid(bodies@),
            0 <= restitution_permille <= PERMILLE,
        decreases pairs@.len() - j,
    {
        proof {
            assert(pairs@.subrange(0, j as int + 1).drop_last() =~= pairs@.subrange(0, j as int));
        }
        let (a, b) = pairs[j];
        if a < b && b < bodies.len() as u64 {
            let mut ba = bodies[a as usize];
            let mut bb = bodies[b as usize];
            resolve_pair(&mut ba, &mut bb, restitution_permille);
            bodies.set(a as usize, ba);
            bodies.set(b as usize, bb);
        }
        j = j + 1;
    }
    proof {
        assert(pairs@.subrange(0, j as int) =~= pairs@);
    }
}

/// The narrow phase: `rounds` passes over the pairs, so that contacts that one
/// correction reopens are corrected again within the step.
pub fn solve(bodies: &mut Vec<Physics>, pairs: &Vec<(u64, u64)>, rounds: u32, restitution_permille: i64)
    requires
        all_valid(old(bodies)@),
        0 <= restitution_permille <= PERMILLE,
    ensures
        final(bodies)@ == solve_rounds(old(bodies)@, pairs@, restitution_permille as int, rounds as nat),
        all_valid(final(bodies)@),
{
    let ghost init = bodies@;
    let mut n: u32 = 0;
    while n < rounds
        invariant
            0 <= n <= rounds,
            bodies@ == solve_rounds(init, pairs@, restitution_permille as int, n as nat),
            all_valid(bodies@),
            0 <= restitution_permille <= PERMILLE,
        decreases rounds - n,
    {
        resolve_pairs(bodies, pairs, restitution_permille);
        n = n + 1;
    }
}

/// A quotient rounded toward zero is less than one divisor away.
proof fn lemma_div_trunc_close(n: int, d: int)
    requires
        d > 0,
    ensures
        -d < div_trunc(n, d) * d - n < d,
{
    if n >= 0 {
        vstd::arithmetic::div_mod::lemma_fundamental_div_mod(n, d);
        assert(d * (n / d) == (n / d) * d) by (nonlinear_arith);
    } else {
        vstd::arithmetic::div_mod::lemma_fundamental_div_mod(-n, d);
        assert(d * ((-n) / d) == ((-n) / d) * d) by (nonlinear_arith);
        assert(-((-n) / d) * d == -(((-n) / d) * d)) by (nonlinear_arith);
    }
}

/// Two impulses `n * mb / den` and `n * ma / den`, each rounded toward zero,
/// weighed by the masses `ma` and `mb`, differ by less than `ma + mb`.
proof fn lemma_rounded_impulses(n: int, ma: int, mb: int, den: int)
    requires
        ma > 0,
        mb > 0,
        den > 0,
    ensures
        -(ma + mb) < ma * div_trunc(n * mb, den) - mb * div_trunc(n * ma, den) < ma + mb,
{
    let qa = div_trunc(n * mb, den);
    let qb = div_trunc(n * ma, den);
    lemma_div_trunc_close(n * mb, den);
    lemma_div_trunc_close(n * ma, den);
    let ea = qa * den - n * mb;
    let eb = qb * den - n * ma;
    assert((ma * qa - mb * qb) * den == ma * ea - mb * eb) by (nonlinear_arith)
        requires
            ea == qa * den - n * mb,
            eb == qb * den - n * ma,
    ;
    assert(-(ma + mb) * den < ma * ea - mb * eb < (ma + mb) * den) by (nonlinear_arith)
        requires
            -den < ea < den,
            -den < eb < den,
            ma > 0,
            mb > 0,
    ;
    assert(-(ma + mb) < ma * qa - mb * qb < ma + mb) by (nonlinear_arith)
        requires
            (ma * qa - mb * qb) * den == ma * ea - mb * eb,
            -(ma + mb) * den < ma * ea - mb * eb < (ma + mb) * den,
            den > 0,
    ;
}

/// One resolution changes the total momentum of the pair, on each axis, by
/// less than the sum of the masses: the impulses are equal and opposite up to
/// the rounding of each to a whole velocity. This holds for any contact
/// direction, masses and restitution, so long as no velocity saturates.
pub proof fn resolution_keeps_momentum(a: Physics, b: Physics, e: int)
    requires
        a.valid(),
        b.valid(),
        0 <= e <= PERMILLE,
        in_range(resolved_unclamped_va(a, b, e).0) && in_range(resolved_unclamped_va(a, b, e).1),
        in_range(resolved_unclamped_vb(a, b, e).0) && in_range(resolved_unclamped_vb(a, b, e).1),
    ensures
        abs(a.mass * resolved(a, b, e).0.velocity.x + b.mass * resolved(a, b, e).1.velocity.x
            - (a.mass * a.velocity.x + b.mass * b.velocity.x)) < a.mass + b.mass,
        abs(a.mass * resolved(a, b, e).0.velocity.y + b.mass * resolved(a, b, e).1.velocity.y
            - (a.mass * a.velocity.y + b.mass * b.velocity.y)) < a.mass + b.mass,
{
    let dx = b.position.x - a.position.x;
    let dy = b.position.y - a.position.y;
    let d2 = dx * dx + dy * dy;
    let reach = a.collider_radius + b.collider_radius;
    let vn = (b.velocity.x - a.velocity.x) * dx + (b.velocity.y - a.velocity.y) * dy;
    if !(d2 == 0 || d2 > reach * reach || vn > 0) {
        let k = (PERMILLE + e) * (-vn);
        let den = PERMILLE * (a.mass + b.mass) * d2;
        assert(d2 > 0) by (nonlinear_arith)
            requires
                d2 == dx * dx + dy * dy,
                d2 != 0,
        ;
        assert(den > 0) by (nonlinear_arith)
            requires
                den == PERMILLE * (a.mass + b.mass) * d2,
                a.mass + b.mass > 0,
                d2 > 0,
        ;
        assert(k * b.mass * dx == (k * dx) * b.mass && k * a.mass * dx == (k * dx) * a.mass)
            by (nonlinear_arith);
        assert(k * b.mass * dy == (k * dy) * b.mass && k * a.mass * dy == (k * dy) * a.mass)
            by (nonlinear_arith);
        lemma_rounded_impulses(k * dx, a.mass as int, b.mass as int, den);
        lemma_rounded_impulses(k * dy, a.mass as int, b.mass as int, den);
        let qax = div_trunc(k * b.mass * dx, den);
        let qbx = div_trunc(k * a.mass * dx, den);
        let qay = div_trunc(k * b.mass * dy, den);
        let qby = div_trunc(k * a.mass * dy, den);
        assert(a.mass * (a.velocity.x - qax) + b.mass * (b.velocity.x + qbx) - (a.mass * a.velocity.x
            + b.mass * b.velocity.x) == -(a.mass * qax - b.mass * qbx)) by (nonlinear_arith);
        assert(a.mass * (a.velocity.y - qay) + b.mass * (b.velocity.y + qby) - (a.mass * a.velocity.y
            + b.mass * b.velocity.y) == -(a.mass * qay - b.mass * qby)) by (nonlinear_arith);
    }
}

/// The first body's velocity after one resolution, before it saturates.
pub open spec fn resolved_unclamped_va(a: Physics, b: Physics, e: int) -> (int, int) {
    let dx = b.position.x - a.position.x;
    let dy = b.position.y - a.position.y;
    let d2 = dx * dx + dy * dy;
    let k = (PERMILLE + e) * (-((b.velocity.x - a.velocity.x) * dx + (b.velocity.y - a.velocity.y) * dy));
    let den = PERMILLE * (a.mass + b.mass) * d2;
    (a.velocity.x - div_trunc(k * b.mass * dx, den), a.velocity.y - div_trunc(k * b.mass * dy, den))
}

/// The second body's velocity after one resolution, before it saturates.
pub open spec fn resolved_unclamped_vb(a: Physics, b: Physics, e: int) -> (int, int) {
    let dx = b.position.x - a.position.x;
    let dy = b.position.y - a.position.y;
    let d2 = dx * dx + dy * dy;
    let k = (PERMILLE + e) * (-((b.velocity.x - a.velocity.x) * dx + (b.velocity.y - a.velocity.y) * dy));
    let den = PERMILLE * (a.mass + b.mass) * d2;
    (b.velocity.x + div_trunc(k * a.mass * dx, den), b.velocity.y + div_trunc(k * a.mass * dy, den))
}

} // verus!
