use vstd::prelude::*;
use vstd::seq_lib::lemma_multiset_commutative;

use crate::geometry::{Point, Rect};
use crate::quadtree::{accepted, brute_force, built, hits, inserted, lemma_hits_add, Quadtree};

verus! {

broadcast use vstd::seq_lib::group_to_multiset_ensures;

/// Rearranging the items of an index rearranges the answers of a query and
/// changes nothing else.
pub proof fn lemma_hits_permutation(
    a: Seq<crate::quadtree::QuadtreeItem>,
    b: Seq<crate::quadtree::QuadtreeItem>,
    area: Rect,
)
    requires
        a.to_multiset() == b.to_multiset(),
    ensures
        hits(a, area).to_multiset() == hits(b, area).to_multiset(),
    decreases a.len(),
{
    if a.len() == 0 {
        assert(a.to_multiset().len() == 0);
        assert(b.to_multiset().len() == b.len());
        assert(b.len() == 0);
        assert(b =~= Seq::empty());
    } else {
        let x = a.last();
        let a1 = a.drop_last();
        assert(a =~= a1.push(x));
        assert(a.to_multiset().contains(x));
        assert(b.contains(x));
        let j = choose|j: int| 0 <= j < b.len() && b[j] == x;
        let b1 = b.remove(j);
        assert(b1.to_multiset() =~= b.to_multiset().remove(x));
        assert(a1.to_multiset() =~= a.to_multiset().remove(x));
        lemma_hits_permutation(a1, b1, area);
        let l = b.subrange(0, j);
        let r = b.subrange(j + 1, b.len() as int);
        let xs = seq![x];
        assert(b =~= l + xs + r);
        assert(b1 =~= l + r);
        assert(a =~= a1 + xs);
        lemma_hits_add(a1, xs, area);
        lemma_hits_add(l + xs, r, area);
        lemma_hits_add(l, xs, area);
        lemma_hits_add(l, r, area);
        lemma_multiset_commutative(hits(a1, area), hits(xs, area));
        lemma_multiset_commutative(hits(l, area) + hits(xs, area), hits(r, area));
        lemma_multiset_commutative(hits(l, area), hits(xs, area));
        lemma_multiset_commutative(hits(l, area), hits(r, area));
        assert(hits(a, area).to_multiset() =~= hits(b, area).to_multiset());
    }
}

proof fn lemma_hits_accepted(s: Seq<(u64, Point)>, bounds: Rect, area: Rect)
    ensures
        hits(accepted(s, bounds), area) == brute_force(s, bounds, area),
    decreases s.len(),
{
    reveal(Seq::filter);
    let fa = |e: (u64, Point)| crate::quadtree::QuadtreeItem { id: e.0, position: e.1 };
    if s.len() == 0 {
        assert(accepted(s, bounds) =~= Seq::empty());
        assert(brute_force(s, bounds, area) =~= Seq::empty());
    } else {
        let s1 = s.drop_last();
        let e = s.last();
        lemma_hits_accepted(s1, bounds, area);
        if bounds.contains_spec(e.1) {
            assert(accepted(s, bounds) =~= accepted(s1, bounds).push(fa(e)));
            assert(accepted(s, bounds).drop_last() =~= accepted(s1, bounds));
            if area.contains_spec(e.1) {
                assert(brute_force(s, bounds, area) =~= brute_force(s1, bounds, area).push(e.0));
            } else {
                assert(brute_force(s, bounds, area) =~= brute_force(s1, bounds, area));
            }
        } else {
            assert(accepted(s, bounds) =~= accepted(s1, bounds));
            assert(brute_force(s, bounds, area) =~= brute_force(s1, bounds, area));
        }
    }
}

/// `id` is the handle of a snapshot entry inside both rectangles.
pub open spec fn entry_in(s: Seq<(u64, Point)>, bounds: Rect, area: Rect, id: u64) -> bool {
    exists|i: int|
        0 <= i < s.len() && s[i].0 == id && bounds.contains_spec(s[i].1) && area.contains_spec(
            s[i].1,
        )
}

/// Every handle that `brute_force` gives is the handle of a snapshot entry
/// inside both rectangles; with distinct handles in the snapshot it gives
/// each at most once.
pub proof fn lemma_brute_force_entries(s: Seq<(u64, Point)>, bounds: Rect, area: Rect)
    ensures
        forall|k: int|
            0 <= k < brute_force(s, bounds, area).len() ==> entry_in(
                s,
                bounds,
                area,
                #[trigger] brute_force(s, bounds, area)[k],
            ),
        forall|i: int|
            0 <= i < s.len() && bounds.contains_spec(s[i].1) && area.contains_spec(s[i].1)
                ==> brute_force(s, bounds, area).contains(#[trigger] s[i].0),
        (forall|i: int, j: int| 0 <= i < j < s.len() ==> s[i].0 != s[j].0) ==> brute_force(
            s,
            bounds,
            area,
        ).no_duplicates(),
    decreases s.len(),
{
    reveal(Seq::filter);
    if s.len() > 0 {
        let s1 = s.drop_last();
        let e = s.last();
        let b = brute_force(s, bounds, area);
        let b1 = brute_force(s1, bounds, area);
        lemma_brute_force_entries(s1, bounds, area);
        assert forall|i: int| 0 <= i < s1.len() implies s1[i] == s[i] by {}
        if bounds.contains_spec(e.1) && area.contains_spec(e.1) {
            assert(b =~= b1.push(e.0));
            assert(b[b.len() - 1] == s[s.len() - 1].0);
            assert forall|k: int| 0 <= k < b.len() implies entry_in(
                s,
                bounds,
                area,
                #[trigger] b[k],
            ) by {
                if k < b1.len() {
                    assert(b[k] == b1[k]);
                    assert(entry_in(s1, bounds, area, b1[k]));
                    let i = choose|i: int|
                        0 <= i < s1.len() && s1[i].0 == b1[k] && bounds.contains_spec(s1[i].1)
                            && area.contains_spec(s1[i].1);
                    assert(s[i] == s1[i]);
                    assert(0 <= i < s.len() && s[i].0 == b[k] && bounds.contains_spec(s[i].1)
                        && area.contains_spec(s[i].1));
                } else {
                    let i = s.len() - 1;
                    assert(s[i].0 == b[k]);
                    assert(0 <= i < s.len() && s[i].0 == b[k] && bounds.contains_spec(s[i].1)
                        && area.contains_spec(s[i].1));
                }
            }
            assert forall|i: int|
                0 <= i < s.len() && bounds.contains_spec(s[i].1) && area.contains_spec(
                    s[i].1,
                ) implies b.contains(#[trigger] s[i].0) by {
                if i < s1.len() {
                    assert(b1.contains(s1[i].0));
                    let k = choose|k: int| 0 <= k < b1.len() && b1[k] == s1[i].0;
                    assert(b[k] == b1[k]);
                } else {
                    assert(b[b.len() - 1] == s[i].0);
                }
            }
            if forall|i: int, j: int| 0 <= i < j < s.len() ==> s[i].0 != s[j].0 {
                assert forall|i: int, j: int| 0 <= i < j < s1.len() implies s1[i].0 != s1[j].0 by {
                    assert(s1[i] == s[i] && s1[j] == s[j]);
                }
                assert forall|k: int| 0 <= k < b1.len() implies b1[k] != e.0 by {
                    assert(entry_in(s1, bounds, area, b1[k]));
                    let i = choose|i: int|
                        0 <= i < s1.len() && s1[i].0 == b1[k] && bounds.contains_spec(s1[i].1)
                            && area.contains_spec(s1[i].1);
                    assert(s[i].0 != s[s.len() - 1].0);
                }
                assert forall|k: int, l: int| 0 <= k < l < b.len() implies b[k] != b[l] by {
                    if l < b1.len() {
                        assert(b[k] == b1[k] && b[l] == b1[l]);
                    } else {
                        assert(b[k] == b1[k]);
                    }
                }
            }
        } else {
            assert(b =~= b1);
            assert forall|i: int|
                0 <= i < s.len() && bounds.contains_spec(s[i].1) && area.contains_spec(
                    s[i].1,
                ) implies b.contains(#[trigger] s[i].0) by {
                assert(i < s1.len());
                assert(s1[i] == s[i]);
            }
            assert forall|k: int| 0 <= k < b.len() implies entry_in(
                s,
                bounds,
                area,
                #[trigger] b[k],
            ) by {
                assert(entry_in(s1, bounds, area, b1[k]));
                let i = choose|i: int|
                    0 <= i < s1.len() && s1[i].0 == b1[k] && bounds.contains_spec(s1[i].1)
                        && area.contains_spec(s1[i].1);
                assert(s[i] == s1[i]);
                assert(b[k] == b1[k]);
                assert(0 <= i < s.len() && s[i].0 == b[k] && bounds.contains_spec(s[i].1)
                    && area.contains_spec(s[i].1));
            }
            if forall|i: int, j: int| 0 <= i < j < s.len() ==> s[i].0 != s[j].0 {
                assert forall|i: int, j: int| 0 <= i < j < s1.len() implies s1[i].0 != s1[j].0 by {
                    assert(s1[i] == s[i] && s1[j] == s[j]);
                }
            }
        }
    } else {
        assert(brute_force(s, bounds, area).len() == 0);
    }
}

/// On an index built from `snapshot` (what `rebuild`
/// gives), a query over any rectangle returns exactly the handles that a brute
/// force scan of the snapshot finds inside both the index bounds and the
/// rectangle, each as many times.
pub proof fn query_matches_brute_force(t: Quadtree, snapshot: Seq<(u64, Point)>, area: Rect)
    requires
        t.elems().to_multiset() == accepted(snapshot, t.bounds_spec()).to_multiset(),
    ensures
        hits(t.elems(), area).to_multiset() == brute_force(
            snapshot,
            t.bounds_spec(),
            area,
        ).to_multiset(),
{
    lemma_hits_permutation(t.elems(), accepted(snapshot, t.bounds_spec()), area);
    lemma_hits_accepted(snapshot, t.bounds_spec(), area);
}

/// On an index built from a snapshot of distinct handles, a query
/// over a rectangle that covers the whole index bounds returns the handle of
/// every entry inserted inside the bounds exactly once, and nothing else.
pub proof fn full_query_returns_each_once(t: Quadtree, snapshot: Seq<(u64, Point)>, area: Rect)
    requires
        t.elems().to_multiset() == accepted(snapshot, t.bounds_spec()).to_multiset(),
        t.bounds_spec().within(area),
        forall|i: int, j: int| 0 <= i < j < snapshot.len() ==> snapshot[i].0 != snapshot[j].0,
    ensures
        forall|i: int|
            0 <= i < snapshot.len() && t.bounds_spec().contains_spec(snapshot[i].1) ==> hits(
                t.elems(),
                area,
            ).to_multiset().count(#[trigger] snapshot[i].0) == 1,
        forall|id: u64|
            #[trigger] hits(t.elems(), area).to_multiset().count(id) > 0 ==> exists|i: int|
                0 <= i < snapshot.len() && snapshot[i].0 == id && t.bounds_spec().contains_spec(
                    snapshot[i].1,
                ),
{
    let b = t.bounds_spec();
    let bf = brute_force(snapshot, b, area);
    query_matches_brute_force(t, snapshot, area);
    lemma_brute_force_entries(snapshot, b, area);
    bf.lemma_multiset_has_no_duplicates();
    assert forall|i: int|
        0 <= i < snapshot.len() && b.contains_spec(snapshot[i].1) implies hits(
        t.elems(),
        area,
    ).to_multiset().count(#[trigger] snapshot[i].0) == 1 by {
        assert(area.contains_spec(snapshot[i].1));
        assert(bf.contains(snapshot[i].0));
    }
    assert forall|id: u64| #[trigger] hits(t.elems(), area).to_multiset().count(id) > 0 implies exists|
        i: int,
    |
        0 <= i < snapshot.len() && snapshot[i].0 == id && b.contains_spec(snapshot[i].1) by {
        assert(bf.to_multiset().count(id) > 0);
        assert(bf.contains(id));
        let k = choose|k: int| 0 <= k < bf.len() && bf[k] == id;
        assert(bf[k] == id);
        assert(entry_in(snapshot, b, area, bf[k]));
    }
}

/// Two indexes built over the same bounds, with the same capacity, from the
/// same snapshot (what `rebuild` gives) have the same shape, so every query
/// appends the same handles in the same order to both.
pub proof fn rebuilds_answer_alike(
    t1: Quadtree,
    t2: Quadtree,
    snapshot: Seq<(u64, Point)>,
    bounds: Rect,
    capacity: int,
    area: Rect,
)
    requires
        t1.shape() == built(snapshot, bounds, capacity),
        t2.shape() == built(snapshot, bounds, capacity),
    ensures
        t1.elems() == t2.elems(),
        hits(t1.elems(), area) == hits(t2.elems(), area),
{
    t1.lemma_elems_of_shape();
    t2.lemma_elems_of_shape();
}

/// Inserting outside the bounds leaves the number of
/// items and every query's answers unchanged, so a handle that no query found
/// before is found by none after.
pub proof fn out_of_bounds_insert_is_invisible(
    before: Quadtree,
    after: Quadtree,
    id: u64,
    p: Point,
    area: Rect,
)
    requires
        !before.bounds_spec().contains_spec(p),
        after.elems().to_multiset() == inserted(
            before.elems().to_multiset(),
            before.bounds_spec(),
            id,
            p,
        ),
    ensures
        after.elems().len() == before.elems().len(),
        hits(after.elems(), area).to_multiset() == hits(before.elems(), area).to_multiset(),
        !hits(before.elems(), area).contains(id) ==> !hits(after.elems(), area).contains(id),
{
    lemma_hits_permutation(after.elems(), before.elems(), area);
    assert(after.elems().to_multiset().len() == before.elems().to_multiset().len());
    if hits(after.elems(), area).contains(id) {
        assert(hits(after.elems(), area).to_multiset().contains(id));
        assert(hits(before.elems(), area).to_multiset().contains(id));
    }
}

} // verus!
