use vstd::prelude::*;

use crate::body::{abs, bounded, div_trunc, integrated, Physics, LIMIT};
use crate::collision::{all_valid, solve, solve_rounds, PERMILLE};
use crate::geometry::{sat_i64, Point, Rect};
use crate::index_laws::{entry_in, lemma_brute_force_entries, query_matches_brute_force};
use crate::quadtree::{accepted, brute_force, hits, rebuild, Quadtree};

verus! {

broadcast use vstd::seq_lib::group_to_multiset_ensures;

/// The broad-phase search box of a body reaches this many tenths of its radius
/// from its centre, more than the sum of two equal radii.
pub const PADDING_TENTHS: i64 = 21;

/// The host's tuning of a simulation.
#[derive(Clone, Copy, Debug, PartialEq, Eq, Structural)]
pub struct Config {
    /// The world is `[-x_extent, x_extent] x [-y_extent, y_extent]`.
    pub x_extent: i64,
    pub y_extent: i64,
    /// Items a leaf of the index holds before it splits.
    pub capacity: usize,
    /// Passes of the narrow phase per step.
    pub solver_iterations: u32,
    /// Restitution of collisions, in thousandths.
    pub restitution_permille: i64,
    /// Factor kept of the speed into a wall, in thousandths.
    pub wall_permille: i64,
}

impl Config {
    pub open spec fn valid(self) -> bool {
        &&& 0 < self.x_extent < LIMIT
        &&& 0 < self.y_extent < LIMIT
        &&& 0 <= self.restitution_permille <= PERMILLE
        &&& 1 <= self.wall_permille <= 1000
    }

    pub open spec fn world_spec(self) -> Rect {
        Rect {
            min_x: (-self.x_extent) as i64,
            min_y: (-self.y_extent) as i64,
            max_x: self.x_extent,
            max_y: self.y_extent,
        }
    }

    /// The rectangle that the index covers.
    pub fn world(&self) -> (r: Rect)
        requires
            self.valid(),
        ensures
            r == self.world_spec(),
    {
        Rect { min_x: -self.x_extent, min_y: -self.y_extent, max_x: self.x_extent, max_y: self.y_extent }
    }
}

/// The broad-phase search box of a body.
pub open spec fn search_area(b: Physics) -> Rect {
    let half = b.collider_radius * PADDING_TENTHS / 10;
    Rect {
        min_x: sat_i64(b.position.x - half) as i64,
        min_y: sat_i64(b.position.y - half) as i64,
        max_x: sat_i64(b.position.x + half) as i64,
        max_y: sat_i64(b.position.y + half) as i64,
    }
}

/// The handles and positions that the index is rebuilt from: body `i` under handle `i`.
pub open spec fn snapshot_of(bodies: Seq<Physics>) -> Seq<(u64, Point)> {
    Seq::new(bodies.len(), |i: int| (i as u64, bodies[i].position))
}

/// The query of body `x` finds body `y`: `y` is in the index and in the search box of `x`.
pub open spec fn found_by(bodies: Seq<Physics>, bounds: Rect, x: int, y: int) -> bool {
    bounds.contains_spec(bodies[y].position) && search_area(bodies[x]).contains_spec(
        bodies[y].position,
    )
}

/// `(a, b)` is a broad-phase candidate: two distinct bodies, lower handle
/// first, one of which finds the other.
pub open spec fn is_candidate(bodies: Seq<Physics>, bounds: Rect, p: (u64, u64)) -> bool {
    let a = p.0 as int;
    let b = p.1 as int;
    &&& a < b < bodies.len()
    &&& (found_by(bodies, bounds, a, b) || found_by(bodies, bounds, b, a))
}

/// The body whose query produces a candidate: the lower one when it finds
/// the higher, else the higher.
pub open spec fn source(bodies: Seq<Physics>, bounds: Rect, p: (u64, u64)) -> int {
    if found_by(bodies, bounds, p.0 as int, p.1 as int) {
        p.0 as int
    } else {
        p.1 as int
    }
}

/// The index holds exactly the bodies of `bodies` inside its bounds.
pub open spec fn indexes(t: Quadtree, bodies: Seq<Physics>) -> bool {
    t.wf() && t.elems().to_multiset() == accepted(snapshot_of(bodies), t.bounds_spec()).to_multiset()
}

/// What the query of body `i` returns holds no handle twice, and holds `x`
/// exactly when body `x` exists and is found by body `i`.
proof fn lemma_found(t: Quadtree, bodies: Seq<Physics>, i: int)
    requires
        indexes(t, bodies),
        0 <= i < bodies.len(),
        bodies.len() <= u64::MAX,
    ensures
        hits(t.elems(), search_area(bodies[i])).no_duplicates(),
        forall|x: u64|
            #[trigger] hits(t.elems(), search_area(bodies[i])).contains(x) <==> (x < bodies.len()
                && found_by(bodies, t.bounds_spec(), i, x as int)),
{
    let s = snapshot_of(bodies);
    let area = search_area(bodies[i]);
    let bounds = t.bounds_spec();
    let h = hits(t.elems(), area);
    let bf = brute_force(s, bounds, area);
    query_matches_brute_force(t, s, area);
    lemma_brute_force_entries(s, bounds, area);
    assert forall|p: int, q: int| 0 <= p < q < s.len() implies s[p].0 != s[q].0 by {}
    bf.lemma_multiset_has_no_duplicates();
    assert forall|x: u64| h.to_multiset().contains(x) implies h.to_multiset().count(x) == 1 by {
        assert(bf.to_multiset().contains(x));
    }
    h.lemma_multiset_has_no_duplicates_conv();
    assert forall|x: u64| #[trigger] h.contains(x) <==> (x < bodies.len() && found_by(
        bodies,
        bounds,
        i,
        x as int,
    )) by {
        if h.contains(x) {
            assert(h.to_multiset().contains(x));
            assert(bf.to_multiset().contains(x));
            assert(bf.contains(x));
            let k = choose|k: int| 0 <= k < bf.len() && bf[k] == x;
            assert(entry_in(s, bounds, area, bf[k]));
            let j = choose|j: int|
                0 <= j < s.len() && s[j].0 == bf[k] && bounds.contains_spec(s[j].1)
                    && area.contains_spec(s[j].1);
            assert(s[j].0 == j as u64);
        }
        if x < bodies.len() && found_by(bodies, bounds, i, x as int) {
            let j = x as int;
            assert(s[j].0 == x && s[j].1 == bodies[j].position);
            assert(bf.contains(s[j].0));
            assert(bf.to_multiset().contains(x));
            assert(h.to_multiset().contains(x));
        }
    }
}

/// The broad-phase search box of a body, as `search_area` gives it.
pub fn search_box(b: &Physics) -> (r: Rect)
    requires
        b.valid(),
    ensures
        r == search_area(*b),
{
    let half = b.collider_radius * PADDING_TENTHS / 10;
    Rect::around(b.position, half)
}

/// The broad phase: queries the index around every body and returns each
/// candidate pair once, lower handle first.
pub fn candidate_pairs(index: &Quadtree, bodies: &Vec<Physics>) -> (pairs: Vec<(u64, u64)>)
    requires
        indexes(*index, bodies@),
        all_valid(bodies@),
        bodies@.len() < u64::MAX,
    ensures
        pairs@.no_duplicates(),
        forall|p: (u64, u64)| #[trigger] pairs@.contains(p) <==> is_candidate(bodies@, index.bounds_spec(), p),
{
    let ghost bs = bodies@;
    let ghost bounds = index.bounds_spec();
    let n = bodies.len();
    let mut pairs: Vec<(u64, u64)> = Vec::new();
    let mut i: usize = 0;
    while i < n
        invariant
            n == bodies@.len(),
            bs == bodies@,
            bounds == index.bounds_spec(),
            indexes(*index, bs),
            all_valid(bs),
            n < u64::MAX,
            0 <= i <= n,
            pairs@.no_duplicates(),
            forall|p: (u64, u64)| #[trigger] pairs@.contains(p) <==> (is_candidate(bs, bounds, p)
                && source(bs, bounds, p) < i),
        decreases n - i,
    {
        let bi = bodies[i];
        let area = search_box(&bi);
        let mut found: Vec<u64> = Vec::new();
        index.query(&area, &mut found);
        let ghost f = found@;
        proof {
            assert(f =~= hits(index.elems(), search_area(bs[i as int])));
            lemma_found(*index, bs, i as int);
        }
        let mut k: usize = 0;
        while k < found.len()
            invariant
                n == bodies@.len(),
                bs == bodies@,
                bounds == index.bounds_spec(),
                indexes(*index, bs),
                all_valid(bs),
                n < u64::MAX,
                0 <= i < n,
                bi == bs[i as int],
                f == found@,
                f.no_duplicates(),
                forall|x: u64| #[trigger] f.contains(x) <==> (x < n && found_by(bs, bounds, i as int, x as int)),
                0 <= k <= f.len(),
                pairs@.no_duplicates(),
                forall|p: (u64, u64)| #[trigger] pairs@.contains(p) <==> (is_candidate(bs, bounds, p) && (
                    source(bs, bounds, p) < i || (source(bs, bounds, p) == i && f.subrange(0, k as int).contains(
                        if p.0 == i as u64 { p.1 } else { p.0 },
                    )))),
            decreases f.len() - k,
        {
            let c = found[k];
            proof {
                assert(f.contains(c));
                assert forall|x: u64| f.subrange(0, k as int + 1).contains(x) <==> (f.subrange(0, k as int).contains(x) || x == c) by {
                    if f.subrange(0, k as int + 1).contains(x) {
                        let j = choose|j: int| 0 <= j < k + 1 && #[trigger] f.subrange(0, k as int + 1)[j] == x;
                        if j < k {
                            assert(f.subrange(0, k as int)[j] == x);
                        }
                    }
                    if f.subrange(0, k as int).contains(x) {
                        let j = choose|j: int| 0 <= j < k && #[trigger] f.subrange(0, k as int)[j] == x;
                        assert(f.subrange(0, k as int + 1)[j] == x);
                    }
                    if x == c {
                        assert(f.subrange(0, k as int + 1)[k as int] == x);
                    }
                }
                assert(!f.subrange(0, k as int).contains(c)) by {
                    if f.subrange(0, k as int).contains(c) {
                        let j = choose|j: int| 0 <= j < k && #[trigger] f.subrange(0, k as int)[j] == c;
                        assert(f[j] == f[k as int]);
                    }
                }
            }
            let ghost before = pairs@;
            if (i as u64) < c {
                pairs.push((i as u64, c));
                proof {
                    let np = (i as u64, c);
                    assert(found_by(bs, bounds, i as int, c as int));
                    assert(!before.contains(np));
                    assert forall|p: (u64, u64)| #[trigger] pairs@.contains(p) <==> before.contains(p) || p == np by {
                        if pairs@.contains(p) {
                            let j = choose|j: int| 0 <= j < pairs@.len() && #[trigger] pairs@[j] == p;
                            if j < before.len() {
                                assert(before[j] == p);
                            }
                        }
                        if before.contains(p) {
                            let j = choose|j: int| 0 <= j < before.len() && #[trigger] before[j] == p;
                            assert(pairs@[j] == p);
                        }
                        if p == np {
                            assert(pairs@[before.len() as int] == p);
                        }
                    }
                }
            } else if c < i as u64 {
                let bc = bodies[c as usize];
                let back = search_box(&bc);
                if !(index.point_in_bounds(bi.position) && back.contains(bi.position)) {
                    pairs.push((c, i as u64));
                    proof {
                        let np = (c, i as u64);
                        assert(!found_by(bs, bounds, c as int, i as int));
                        assert(source(bs, bounds, np) == i);
                        assert(!before.contains(np));
                        assert forall|p: (u64, u64)| #[trigger] pairs@.contains(p) <==> before.contains(p) || p == np by {
                            if pairs@.contains(p) {
                                let j = choose|j: int| 0 <= j < pairs@.len() && #[trigger] pairs@[j] == p;
                                if j < before.len() {
                                    assert(before[j] == p);
                                }
                            }
                            if before.contains(p) {
                                let j = choose|j: int| 0 <= j < before.len() && #[trigger] before[j] == p;
                                assert(pairs@[j] == p);
                            }
                            if p == np {
                                assert(pairs@[before.len() as int] == p);
                            }
                        }
                    }
                } else {
                    proof {
                        assert(found_by(bs, bounds, c as int, i as int));
                        assert(source(bs, bounds, (c, i as u64)) == c);
                    }
                }
            }
            k = k + 1;
        }
        proof {
            assert(f.subrange(0, k as int) =~= f);
            assert forall|p: (u64, u64)| #[trigger] pairs@.contains(p) <==> (is_candidate(bs, bounds, p)
                && source(bs, bounds, p) < i + 1) by {
                if is_candidate(bs, bounds, p) && source(bs, bounds, p) == i {
                    if p.0 == i as u64 {
                        assert(found_by(bs, bounds, i as int, p.1 as int));
                        assert(f.contains(p.1));
                    } else {
                        assert(p.1 == i as u64);
                        assert(found_by(bs, bounds, i as int, p.0 as int));
                        assert(f.contains(p.0));
                    }
                }
            }
        }
        i = i + 1;
    }
    proof {
        assert forall|p: (u64, u64)| is_candidate(bs, bounds, p) implies source(bs, bounds, p) < n by {}
    }
    pairs
}

/// Every body after integration over `dt` ticks and the boundary policy.
pub open spec fn advanced(bodies: Seq<Physics>, config: Config, dt: int) -> Seq<Physics> {
    Seq::new(
        bodies.len(),
        |i: int|
            bounded(
                integrated(bodies[i], dt),
                config.x_extent as int,
                config.y_extent as int,
                config.wall_permille as int,
            ),
    )
}

/// The snapshot the index is rebuilt from: body `i` under handle `i`.
pub fn snapshot(bodies: &Vec<Physics>) -> (r: Vec<(u64, Point)>)
    requires
        bodies@.len() < u64::MAX,
    ensures
        r@ == snapshot_of(bodies@),
{
    let mut r: Vec<(u64, Point)> = Vec::new();
    let mut i: usize = 0;
    while i < bodies.len()
        invariant
            0 <= i <= bodies@.len(),
            bodies@.len() < u64::MAX,
            r@ == snapshot_of(bodies@).subrange(0, i as int),
        decreases bodies@.len() - i,
    {
        r.push((i as u64, bodies[i].position));
        proof {
            assert(r@ =~= snapshot_of(bodies@).subrange(0, i as int + 1));
        }
        i = i + 1;
    }
    proof {
        assert(r@ =~= snapshot_of(bodies@));
    }
    r
}

/// One simulation step: rebuilds the index from the current positions, finds
/// the candidate pairs, runs the narrow phase `solver_iterations` times, then
/// integrates every body over `dt` ticks and applies the boundary policy.
/// Returns the candidate pairs it resolved.
pub fn step(bodies: &mut Vec<Physics>, config: &Config, dt: i64) -> (pairs: Vec<(u64, u64)>)
    requires
        all_valid(old(bodies)@),
        config.valid(),
        0 <= dt,
        old(bodies)@.len() < u64::MAX,
    ensures
        pairs@.no_duplicates(),
        forall|p: (u64, u64)| #[trigger] pairs@.contains(p) <==> is_candidate(old(bodies)@, config.world_spec(), p),
        final(bodies)@ == advanced(
            solve_rounds(
                old(bodies)@,
                pairs@,
                config.restitution_permille as int,
                config.solver_iterations as nat,
            ),
            *config,
            dt as int,
        ),
        all_valid(final(bodies)@),
{
    let snap = snapshot(bodies);
    let index = rebuild(config.world(), config.capacity, &snap);
    let pairs = candidate_pairs(&index, bodies);
    solve(bodies, &pairs, config.solver_iterations, config.restitution_permille);
    let ghost solved = bodies@;
    let mut i: usize = 0;
    while i < bodies.len()
        invariant
            0 <= i <= bodies@.len(),
            bodies@.len() == solved.len(),
            all_valid(solved),
            all_valid(bodies@),
            config.valid(),
            0 <= dt,
            forall|j: int| 0 <= j < i ==> bodies@[j] == #[trigger] advanced(solved, *config, dt as int)[j],
            forall|j: int| i <= j < bodies@.len() ==> bodies@[j] == #[trigger] solved[j],
        decreases bodies@.len() - i,
    {
        let mut b = bodies[i];
        b.integrate(dt);
        b.apply_boundary(config.x_extent, config.y_extent, config.wall_permille);
        bodies.set(i, b);
        i = i + 1;
    }
    proof {
        assert(bodies@ =~= advanced(solved, *config, dt as int));
    }
    pairs
}

/// A body that stands one unit beyond the right wall and
/// moves outward, and still moves outward once its acceleration over `dt` is
/// added, comes out of integration and the boundary policy moving inward and
/// back inside the wall.
pub proof fn wall_reflects_outward_body(b: Physics, config: Config, dt: int)
    requires
        b.valid(),
        config.valid(),
        0 <= dt,
        b.position.x == config.x_extent + 1,
        b.velocity.x > 0,
        b.velocity.x + b.acceleration.x * dt > 0,
    ensures
        advanced(seq![b], config, dt)[0].velocity.x < 0,
        abs(advanced(seq![b], config, dt)[0].position.x as int) < config.x_extent + 1,
{
    let w = config.wall_permille as int;
    let m = integrated(b, dt);
    assert(m.velocity.x > 0);
    assert(m.velocity.x * dt >= 0) by (nonlinear_arith)
        requires
            m.velocity.x > 0,
            dt >= 0,
    ;
    assert(m.position.x > config.x_extent);
    let v = m.velocity.x as int;
    assert(0 <= v * (1000 - w) < v * 1000) by (nonlinear_arith)
        requires
            v > 0,
            1 <= w <= 1000,
    ;
    vstd::arithmetic::div_mod::lemma_div_is_ordered(v * (1000 - w), v * 1000 - 1, 1000);
    vstd::arithmetic::div_mod::lemma_fundamental_div_mod(v * 1000 - 1, 1000);
    assert(div_trunc(v * (1000 - w), 1000) < v);
    let e = config.x_extent as int;
    vstd::arithmetic::div_mod::lemma_div_is_ordered(e * 999, e * 1000, 1000);
    vstd::arithmetic::div_mod::lemma_div_multiples_vanish(e, 1000);
    assert(0 <= e * 999 / 1000 <= e);
}

} // verus!
