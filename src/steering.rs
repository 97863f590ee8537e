use vstd::prelude::*;

use crate::body::{clamp, clamp_i128, div_trunc, div_trunc_i128, in_range, lemma_mul_bounded, LIMIT};
use crate::geometry::Point;

verus! {

/// Sum of the headings of the bodies in `found` other than `me`; handles
/// without a heading are passed over.
pub open spec fn others_sum(headings: Seq<i64>, me: u64, found: Seq<u64>) -> int
    decreases found.len(),
{
    if found.len() == 0 {
        0
    } else {
        let h = found.last();
        others_sum(headings, me, found.drop_last()) + if h != me && h < headings.len() {
            headings[h as int] as int
        } else {
            0
        }
    }
}

/// Number of the bodies in `found` other than `me` that have a heading.
pub open spec fn others_count(headings: Seq<i64>, me: u64, found: Seq<u64>) -> int
    decreases found.len(),
{
    if found.len() == 0 {
        0
    } else {
        let h = found.last();
        others_count(headings, me, found.drop_last()) + if h != me && h < headings.len() {
            1int
        } else {
            0int
        }
    }
}

/// The heading of `me` after steering toward the mean heading of the others
/// it found: it turns by `turn_permille` thousandths of the difference per tick
/// over `dt` ticks, and keeps its heading when it found no other.
pub open spec fn steered(headings: Seq<i64>, me: u64, found: Seq<u64>, turn_permille: int, dt: int) -> int {
    let own = headings[me as int] as int;
    let n = others_count(headings, me, found);
    if n == 0 {
        own
    } else {
        let mean = div_trunc(others_sum(headings, me, found), n);
        clamp(own + div_trunc((mean - own) * turn_permille * dt, 1000))
    }
}

proof fn lemma_others_bounds(headings: Seq<i64>, me: u64, found: Seq<u64>)
    requires
        forall|i: int| 0 <= i < headings.len() ==> in_range(#[trigger] headings[i] as int),
    ensures
        0 <= others_count(headings, me, found) <= found.len(),
        -LIMIT * others_count(headings, me, found) <= others_sum(headings, me, found) <= LIMIT
            * others_count(headings, me, found),
    decreases found.len(),
{
    if found.len() > 0 {
        lemma_others_bounds(headings, me, found.drop_last());
        let h = found.last();
        if h != me && h < headings.len() {
            assert(in_range(headings[h as int] as int));
        }
    }
}

/// Steers the heading of body `me` toward the mean heading of the other
/// bodies that its neighbour query returned.
pub fn steer_heading(
    headings: &Vec<i64>,
    me: usize,
    found: &Vec<u64>,
    turn_permille: i64,
    dt: i64,
) -> (r: i64)
    requires
        me < headings@.len(),
        forall|i: int| 0 <= i < headings@.len() ==> in_range(#[trigger] headings@[i] as int),
        0 <= turn_permille <= 1000,
        0 <= dt,
        found@.len() <= 4294967296,
    ensures
        r == steered(headings@, me as u64, found@, turn_permille as int, dt as int),
        in_range(r as int),
{
    let mut sum: i128 = 0;
    let mut count: i128 = 0;
    let mut j: usize = 0;
    while j < found.len()
        invariant
            0 <= j <= found@.len(),
            found@.len() <= 4294967296,
            forall|i: int| 0 <= i < headings@.len() ==> in_range(#[trigger] headings@[i] as int),
            sum == others_sum(headings@, me as u64, found@.subrange(0, j as int)),
            count == others_count(headings@, me as u64, found@.subrange(0, j as int)),
        decreases found@.len() - j,
    {
        proof {
            assert(found@.subrange(0, j as int + 1).drop_last() =~= found@.subrange(0, j as int));
            lemma_others_bounds(headings@, me as u64, found@.subrange(0, j as int));
            lemma_mul_bounded(LIMIT as int, count as int, LIMIT as int, 4294967296);
        }
        let h = found[j];
        if h != me as u64 && h < headings.len() as u64 {
            sum = sum + headings[h as usize] as i128;
            count = count + 1;
        }
        j = j + 1;
    }
    proof {
        assert(found@.subrange(0, j as int) =~= found@);
        lemma_others_bounds(headings@, me as u64, found@);
    }
    let own = headings[me];
    assert(own == headings@[me as int]);
    assert(sum == others_sum(headings@, me as u64, found@));
    assert(count == others_count(headings@, me as u64, found@));
    if count == 0 {
        return own;
    }
    proof {
        lemma_mul_bounded(LIMIT as int, count as int, LIMIT as int, 4294967296);
    }
    let mean = div_trunc_i128(sum, count);
    proof {
        assert(-LIMIT <= mean <= LIMIT) by {
            let c = count as int;
            if sum >= 0 {
                vstd::arithmetic::div_mod::lemma_div_is_ordered(sum as int, LIMIT * c, c);
                vstd::arithmetic::div_mod::lemma_div_multiples_vanish(LIMIT as int, c);
                assert(LIMIT * c == c * LIMIT) by (nonlinear_arith);
            } else {
                vstd::arithmetic::div_mod::lemma_div_is_ordered(-sum as int, LIMIT * c, c);
                vstd::arithmetic::div_mod::lemma_div_multiples_vanish(LIMIT as int, c);
                assert(LIMIT * c == c * LIMIT) by (nonlinear_arith);
            }
        }
        lemma_mul_bounded((mean - own) as int, turn_permille as int, 2 * LIMIT as int, 1000);
        lemma_mul_bounded(((mean - own) * turn_permille) as int, dt as int, 2000 * LIMIT as int, i64::MAX as int);
    }
    let turn = div_trunc_i128((mean - own as i128) * turn_permille as i128 * dt as i128, 1000);
    clamp_i128(own as i128 + turn)
}

/// The wrap of the steering world: a coordinate beyond its extent flips sign.
pub open spec fn wrapped(p: Point, x_extent: int, y_extent: int) -> Point {
    Point {
        x: if p.x > x_extent || p.x < -x_extent {
            -p.x
        } else {
            p.x as int
        } as i64,
        y: if p.y > y_extent || p.y < -y_extent {
            -p.y
        } else {
            p.y as int
        } as i64,
    }
}

/// Wraps a position that left the world to the opposite side.
pub fn wrap_position(p: Point, x_extent: i64, y_extent: i64) -> (r: Point)
    requires
        p.x > i64::MIN,
        p.y > i64::MIN,
        x_extent >= 0,
        y_extent >= 0,
    ensures
        r == wrapped(p, x_extent as int, y_extent as int),
{
    let x = if p.x > x_extent || p.x < -x_extent {
        -p.x
    } else {
        p.x
    };
    let y = if p.y > y_extent || p.y < -y_extent {
        -p.y
    } else {
        p.y
    };
    Point { x, y }
}

} // verus!
