//! Stitching: the fragments that slicing leaves, in no order and no
//! direction, are welded into a pool and merged end to end into contours.

use crate::geometry::Vertex;
use crate::polygons::{
    all_in_form, all_wf, below, copy_vec, join_paths, lemma_join_paths_below,
    lemma_join_paths_len, paths,
    resolve, IndexPolygon, Path, Polygon,
};
use crate::welder::{weld_all, VertexPool};
use vstd::prelude::*;

verus! {

/// Every index of every polyline lies below `n`.
pub open spec fn all_below(lines: Seq<Path<usize>>, n: int) -> bool {
    forall|i: int| 0 <= i < lines.len() ==> below(#[trigger] lines[i], n)
}

/// The pool and the polylines of indices after welding every point of
/// every polyline, in order, into `pool`.
pub open spec fn weld_each(pool: Seq<Vertex>, eps: int, lines: Seq<Path<Vertex>>) -> (
    Seq<Vertex>,
    Seq<Path<usize>>,
)
    decreases lines.len(),
{
    if lines.len() == 0 {
        (pool, Seq::empty())
    } else {
        let before = weld_each(pool, eps, lines.drop_last());
        let last = weld_all(before.0, eps, lines.last().points);
        (last.0, before.1.push(Path { points: last.1, normals: lines.last().normals }))
    }
}

/// Two polylines run through the same indices, in the same or in the
/// opposite direction.
pub open spec fn same_fragment(a: Path<usize>, b: Path<usize>) -> bool {
    a.points == b.points || a.points == b.points.reverse()
}

/// Whether `kept` holds a polyline through the same indices as `p`.
pub open spec fn occurs(kept: Seq<Path<usize>>, p: Path<usize>) -> bool {
    exists|k: int| 0 <= k < kept.len() && same_fragment(#[trigger] kept[k], p)
}

/// The polylines without those that repeat an earlier one: of several
/// through the same indices only the first stays.
pub open spec fn without_duplicates(lines: Seq<Path<usize>>) -> Seq<Path<usize>>
    decreases lines.len(),
{
    if lines.len() == 0 {
        Seq::empty()
    } else {
        let before = without_duplicates(lines.drop_last());
        if occurs(before, lines.last()) {
            before
        } else {
            before.push(lines.last())
        }
    }
}

/// The polylines after merging, from the state of the scan in which
/// polyline `i` is held against polyline `j` and `merged` says whether this
/// pass has merged anything yet.
///
/// Where the two join, the joined polyline takes the place of `i`, `j`
/// leaves, and `i` is held against everything after it once more. A pass
/// ends when `i` has run through all polylines; passes are repeated until
/// one of them merges nothing.
pub open spec fn merge_from(lines: Seq<Path<usize>>, i: int, j: int, merged: bool) -> Seq<
    Path<usize>,
>
    decreases lines.len(), (if merged {
        1int
    } else {
        0int
    }), lines.len() - i, lines.len() - j,
{
    if i < 0 || (i < lines.len() && j <= i) {
        lines
    } else if i >= lines.len() {
        if merged {
            merge_from(lines, 0, 1, false)
        } else {
            lines
        }
    } else if j >= lines.len() {
        merge_from(lines, i + 1, i + 2, merged)
    } else {
        match join_paths(lines[i], lines[j]) {
            Some(joined) => merge_from(lines.remove(j).update(i, joined), i, i + 1, true),
            None => merge_from(lines, i, j + 1, merged),
        }
    }
}

/// The polylines merged until no two of them join any more.
pub open spec fn merged(lines: Seq<Path<usize>>) -> Seq<Path<usize>> {
    merge_from(lines, 0, 1, false)
}

/// No two of the polylines join.
pub open spec fn settled(lines: Seq<Path<usize>>) -> bool {
    forall|i: int, j: int|
        0 <= i < j < lines.len() ==> (#[trigger] join_paths(lines[i], lines[j])) is None
}

/// Whether a pass that holds polyline `at` against polyline `against` has
/// held polyline `i` against polyline `j` before.
pub open spec fn held(i: int, j: int, at: int, against: int) -> bool {
    i < at || (i == at && j < against)
}

/// Merging from a state of the scan ends with polylines of which no two
/// join, provided that no two join that this pass has held against each
/// other since it last merged anything.
pub proof fn lemma_merge_from_settled(lines: Seq<Path<usize>>, i: int, j: int, merged: bool)
    requires
        0 <= i,
        i < lines.len() ==> i < j,
        !merged ==> forall|p: int, q: int|
            0 <= p < q < lines.len() && held(p, q, i, j) ==> (#[trigger] join_paths(
                lines[p],
                lines[q],
            )) is None,
    ensures
        settled(merge_from(lines, i, j, merged)),
    decreases lines.len(), (if merged {
        1int
    } else {
        0int
    }), lines.len() - i, lines.len() - j,
{
    if i >= lines.len() {
        if merged {
            lemma_merge_from_settled(lines, 0, 1, false);
        } else {
            assert forall|p: int, q: int| 0 <= p < q < lines.len() implies (#[trigger] join_paths(
                lines[p],
                lines[q],
            )) is None by {
                assert(held(p, q, i, j));
            }
        }
    } else if j >= lines.len() {
        if !merged {
            assert forall|p: int, q: int|
                0 <= p < q < lines.len() && held(p, q, i + 1, i + 2) implies (
            #[trigger] join_paths(lines[p], lines[q])) is None by {
                assert(held(p, q, i, j));
            }
        }
        lemma_merge_from_settled(lines, i + 1, i + 2, merged);
    } else {
        match join_paths(lines[i], lines[j]) {
            Some(joined) => {
                lemma_merge_from_settled(lines.remove(j).update(i, joined), i, i + 1, true);
            },
            None => {
                if !merged {
                    assert forall|p: int, q: int|
                        0 <= p < q < lines.len() && held(p, q, i, j + 1) implies (
                    #[trigger] join_paths(lines[p], lines[q])) is None by {
                        if !(p == i && q == j) {
                            assert(held(p, q, i, j));
                        }
                    }
                }
                lemma_merge_from_settled(lines, i, j + 1, merged);
            },
        }
    }
}

/// After merging, no two of the polylines join any more.
pub proof fn lemma_merged_settled(lines: Seq<Path<usize>>)
    ensures
        settled(merged(lines)),
{
    lemma_merge_from_settled(lines, 0, 1, false);
}

/// How many of the two ends of `p` stand on the index `v`.
pub open spec fn ends_at(p: Path<usize>, v: usize) -> int {
    if p.points.len() == 0 {
        0
    } else {
        (if p.points.first() == v {
            1int
        } else {
            0int
        }) + (if p.points.last() == v {
            1int
        } else {
            0int
        })
    }
}

/// How many ends of the first `k` polylines stand on the index `v`.
pub open spec fn ends_among(lines: Seq<Path<usize>>, v: usize, k: int) -> int
    decreases k,
{
    if k <= 0 {
        0
    } else {
        ends_among(lines, v, k - 1) + ends_at(lines[k - 1], v)
    }
}

/// Whether the index `v` holds no end of a polyline or exactly two.
pub open spec fn paired_at(lines: Seq<Path<usize>>, v: usize) -> bool {
    ends_among(lines, v, lines.len() as int) == 0 || ends_among(lines, v, lines.len() as int) == 2
}

/// Every end of a polyline meets exactly one other end: each index holds
/// no end or two. So it is with the sides of a polygon, each given once,
/// in any order and direction.
pub open spec fn paired(lines: Seq<Path<usize>>) -> bool {
    forall|v: usize| #[trigger] paired_at(lines, v)
}

/// The ends counted among some polylines are no fewer than those of any
/// one of them, and where they are more, another polyline has one.
proof fn lemma_ends_among(lines: Seq<Path<usize>>, v: usize, k: int, m: int)
    requires
        0 <= m < k <= lines.len(),
    ensures
        ends_among(lines, v, k) >= ends_at(lines[m], v) >= 0,
        ends_among(lines, v, k) >= 0,
        ends_among(lines, v, k) > ends_at(lines[m], v) ==> exists|q: int|
            0 <= q < k && q != m && ends_at(#[trigger] lines[q], v) >= 1,
    decreases k,
{
    lemma_ends_positive(lines, v, k - 1);
    if m < k - 1 {
        lemma_ends_among(lines, v, k - 1, m);
        if ends_among(lines, v, k) > ends_at(lines[m], v) {
            if ends_at(lines[k - 1], v) >= 1 {
                assert(ends_at(lines[k - 1], v) >= 1);
            } else {
                let q = choose|q: int|
                    0 <= q < k - 1 && q != m && ends_at(#[trigger] lines[q], v) >= 1;
                assert(ends_at(lines[q], v) >= 1);
            }
        }
    } else {
        if ends_among(lines, v, k) > ends_at(lines[m], v) {
            lemma_ends_some(lines, v, k - 1);
        }
    }
}

/// No count of ends is below zero.
proof fn lemma_ends_positive(lines: Seq<Path<usize>>, v: usize, k: int)
    ensures
        ends_among(lines, v, k) >= 0,
    decreases k,
{
    if k > 0 {
        lemma_ends_positive(lines, v, k - 1);
    }
}

/// Where ends are counted, a polyline has one.
proof fn lemma_ends_some(lines: Seq<Path<usize>>, v: usize, k: int)
    requires
        k <= lines.len(),
        ends_among(lines, v, k) > 0,
    ensures
        exists|q: int| 0 <= q < k && ends_at(#[trigger] lines[q], v) >= 1,
    decreases k,
{
    if k > 0 {
        if ends_at(lines[k - 1], v) >= 1 {
        } else {
            lemma_ends_some(lines, v, k - 1);
            let q = choose|q: int| 0 <= q < k - 1 && ends_at(#[trigger] lines[q], v) >= 1;
            assert(ends_at(lines[q], v) >= 1);
        }
    }
}

/// The count of ends after one polyline has been put in the place of
/// another.
proof fn lemma_ends_update(lines: Seq<Path<usize>>, i: int, x: Path<usize>, v: usize, k: int)
    requires
        0 <= i < lines.len(),
        0 <= k <= lines.len(),
    ensures
        ends_among(lines.update(i, x), v, k) == ends_among(lines, v, k) + if i < k {
            ends_at(x, v) - ends_at(lines[i], v)
        } else {
            0
        },
    decreases k,
{
    if k > 0 {
        lemma_ends_update(lines, i, x, v, k - 1);
    }
}

/// The count of ends after one polyline has left.
proof fn lemma_ends_remove(lines: Seq<Path<usize>>, j: int, v: usize, k: int)
    requires
        0 <= j < lines.len(),
        0 <= k <= lines.len() - 1,
    ensures
        ends_among(lines.remove(j), v, k) == if k <= j {
            ends_among(lines, v, k)
        } else {
            ends_among(lines, v, k + 1) - ends_at(lines[j], v)
        },
    decreases k,
{
    if k > 0 {
        lemma_ends_remove(lines, j, v, k - 1);
        lines.remove_ensures(j);
        if k - 1 < j {
            assert(lines.remove(j)[k - 1] == lines[k - 1]);
        } else {
            assert(lines.remove(j)[k - 1] == lines[k]);
        }
    }
}

/// The end that two polylines share where they join, by the way in which
/// they join.
pub open spec fn joint(a: Path<usize>, b: Path<usize>) -> usize {
    if a.points.first() == b.points.first() {
        a.points.first()
    } else if a.points.last() == b.points.last() || a.points.last() == b.points.first() {
        a.points.last()
    } else {
        a.points.first()
    }
}

/// A joined polyline has the ends of its two parts but for the two that
/// met.
proof fn lemma_join_ends(a: Path<usize>, b: Path<usize>, v: usize)
    requires
        join_paths(a, b) is Some,
    ensures
        ends_at(join_paths(a, b).unwrap(), v) == ends_at(a, v) + ends_at(b, v) - if v == joint(
            a,
            b,
        ) {
            2int
        } else {
            0int
        },
        ends_at(a, joint(a, b)) >= 1,
        ends_at(b, joint(a, b)) >= 1,
{
    let x = join_paths(a, b).unwrap();
    let n = a.points.len() as int;
    let m = b.points.len() as int;
    let ra = a.reversed();
    let rb = b.reversed();
    assert(ra.points.len() == n && rb.points.len() == m);
    assert(ra.points[0] == a.points[n - 1] && ra.points[n - 1] == a.points[0]);
    assert(rb.points[0] == b.points[m - 1] && rb.points[m - 1] == b.points[0]);
    if a.points.first() == b.points.first() {
        assert(x.points.len() == n + m - 1);
        assert(x.points.first() == a.points.last());
        assert(x.points.last() == b.points.last());
    } else if a.points.last() == b.points.last() {
        assert(x.points.len() == n + m - 1);
        assert(x.points.first() == a.points.first());
        assert(x.points.last() == b.points.first());
    } else if a.points.last() == b.points.first() {
        assert(x.points.len() == n + m - 1);
        assert(x.points.first() == a.points.first());
        assert(x.points.last() == b.points.last());
    } else {
        assert(x.points.len() == n + m - 1);
        assert(x.points.first() == b.points.first());
        assert(x.points.last() == a.points.last());
    }
}

/// A step of merging leaves every end with exactly one other end.
proof fn lemma_merge_step_paired(lines: Seq<Path<usize>>, i: int, j: int)
    requires
        paired(lines),
        0 <= i < j < lines.len(),
        join_paths(lines[i], lines[j]) is Some,
    ensures
        paired(lines.remove(j).update(i, join_paths(lines[i], lines[j]).unwrap())),
{
    let a = lines[i];
    let b = lines[j];
    let x = join_paths(a, b).unwrap();
    let w = joint(a, b);
    let after = lines.remove(j).update(i, x);
    let len = lines.len() as int;
    lines.remove_ensures(j);
    assert(lines.remove(j)[i] == a);
    assert forall|v: usize| #[trigger] paired_at(after, v) by {
        lemma_join_ends(a, b, v);
        lemma_join_ends(a, b, w);
        lemma_ends_update(lines.remove(j), i, x, v, len - 1);
        lemma_ends_remove(lines, j, v, len - 1);
        assert(ends_among(after, v, len - 1) == ends_among(lines, v, len) - ends_at(b, v)
            - ends_at(a, v) + ends_at(x, v));
        assert(paired_at(lines, v));
        if v == w {
            // the two ends that met are all the ends that stood there
            lemma_ends_among(lines, w, len, i);
            lemma_ends_pair(lines, w, len, i, j);
        }
    }
}

/// The ends counted among some polylines are no fewer than those of any
/// two of them.
proof fn lemma_ends_pair(lines: Seq<Path<usize>>, v: usize, k: int, i: int, j: int)
    requires
        0 <= i < j < k <= lines.len(),
    ensures
        ends_among(lines, v, k) >= ends_at(lines[i], v) + ends_at(lines[j], v),
    decreases k,
{
    if j < k - 1 {
        lemma_ends_pair(lines, v, k - 1, i, j);
    } else {
        lemma_ends_among(lines, v, k - 1, i);
    }
}

/// Merging leaves every end with exactly one other end.
pub proof fn lemma_merge_from_paired(lines: Seq<Path<usize>>, i: int, j: int, merged: bool)
    requires
        paired(lines),
        0 <= i,
        i < lines.len() ==> i < j,
    ensures
        paired(merge_from(lines, i, j, merged)),
    decreases lines.len(), (if merged {
        1int
    } else {
        0int
    }), lines.len() - i, lines.len() - j,
{
    if i >= lines.len() {
        if merged {
            lemma_merge_from_paired(lines, 0, 1, false);
        }
    } else if j >= lines.len() {
        lemma_merge_from_paired(lines, i + 1, i + 2, merged);
    } else {
        match join_paths(lines[i], lines[j]) {
            Some(joined) => {
                lemma_merge_step_paired(lines, i, j);
                lemma_merge_from_paired(lines.remove(j).update(i, joined), i, i + 1, true);
            },
            None => {
                lemma_merge_from_paired(lines, i, j + 1, merged);
            },
        }
    }
}

/// Where every end meets exactly one other end and no two polylines join
/// any more, every polyline that has a point is closed: the end that its
/// first point meets is its own last point.
pub proof fn lemma_paired_settled_closed(lines: Seq<Path<usize>>, m: int)
    requires
        paired(lines),
        settled(lines),
        0 <= m < lines.len(),
        lines[m].points.len() > 0,
    ensures
        lines[m].closed(),
{
    let p = lines[m];
    let h = p.points.first();
    if p.points.last() != h {
        let len = lines.len() as int;
        assert(paired_at(lines, h));
        assert(ends_at(p, h) == 1);
        lemma_ends_among(lines, h, len, m);
        let q = choose|q: int| 0 <= q < len && q != m && ends_at(#[trigger] lines[q], h) >= 1;
        if q < m {
            assert(join_paths(lines[q], lines[m]) is None);
        } else {
            assert(join_paths(lines[m], lines[q]) is None);
        }
    }
}

/// Fragments of which every end meets exactly one other end, after welding
/// and without those that repeat another, are stitched into contours that
/// are all closed.
pub proof fn lemma_stitched_closed(lines: Seq<Path<Vertex>>, eps: int)
    requires
        paired(without_duplicates(weld_each(Seq::empty(), eps, lines).1)),
    ensures
        all_closed(stitched(lines, eps).1),
{
    let fragments = without_duplicates(weld_each(Seq::empty(), eps, lines).1);
    let all = merged(fragments);
    let kept = longer_than_two(all);
    lemma_merge_from_paired(fragments, 0, 1, false);
    lemma_merged_settled(fragments);
    lemma_longer_than_two_order(all);
    lemma_longer_than_two(all);
    assert forall|k: int| 0 <= k < kept.len() implies (#[trigger] kept[k]).closed() by {
        let m = choose|m: int| 0 <= m < all.len() && all[m] == kept[k];
        lemma_paired_settled_closed(all, m);
    }
}

/// The polylines of more than two points, in their order.
pub open spec fn longer_than_two(lines: Seq<Path<usize>>) -> Seq<Path<usize>>
    decreases lines.len(),
{
    if lines.len() == 0 {
        Seq::empty()
    } else {
        let before = longer_than_two(lines.drop_last());
        if lines.last().points.len() > 2 {
            before.push(lines.last())
        } else {
            before
        }
    }
}

/// The pool and the contours, as polylines of indices, that stitching the
/// fragments `lines` with tolerance `eps` gives: every point is welded, a
/// fragment that repeats an earlier one is dropped, the rest are merged end
/// to end, and what is left with no more than two points is dropped.
pub open spec fn stitched(lines: Seq<Path<Vertex>>, eps: int) -> (Seq<Vertex>, Seq<Path<usize>>) {
    let welded = weld_each(Seq::empty(), eps, lines);
    (welded.0, longer_than_two(merged(without_duplicates(welded.1))))
}

/// The contours of [`stitched`] with the coordinates of their points.
pub open spec fn contours(lines: Seq<Path<Vertex>>, eps: int) -> Seq<Path<Vertex>> {
    let s = stitched(lines, eps);
    Seq::new(s.1.len(), |i: int| resolve(s.1[i], s.0))
}

/// Every polyline ends on the index on which it starts.
pub open spec fn all_closed(lines: Seq<Path<usize>>) -> bool {
    forall|k: int| 0 <= k < lines.len() ==> (#[trigger] lines[k]).closed()
}

/// The index of the first polyline that is not closed, or the number of
/// polylines if all are.
pub open spec fn first_open(lines: Seq<Path<usize>>) -> int
    decreases lines.len(),
{
    if lines.len() == 0 {
        0
    } else {
        let before = first_open(lines.drop_last());
        if before < lines.len() - 1 {
            before
        } else if lines.last().closed() {
            lines.len() as int
        } else {
            lines.len() - 1
        }
    }
}

/// What stitching reports when a contour does not close.
#[derive(Debug)]
pub struct IncompleteContour {
    /// Every contour that stitching left, closed or not.
    pub contours: Vec<Polygon>,
    /// The position in `contours` of the first that is not closed.
    pub first_open: usize,
}

/// `first_open` is the first index whose polyline is not closed.
pub proof fn lemma_first_open(lines: Seq<Path<usize>>)
    ensures
        0 <= first_open(lines) <= lines.len(),
        forall|k: int| 0 <= k < first_open(lines) ==> (#[trigger] lines[k]).closed(),
        first_open(lines) < lines.len() ==> !lines[first_open(lines)].closed(),
    decreases lines.len(),
{
    if lines.len() > 0 {
        lemma_first_open(lines.drop_last());
        assert forall|k: int| 0 <= k < first_open(lines) implies (#[trigger] lines[k]).closed() by {
            if k < lines.len() - 1 {
                assert(lines[k] == lines.drop_last()[k]);
            }
        }
        let before = first_open(lines.drop_last());
        if before < lines.len() - 1 {
            assert(lines[before] == lines.drop_last()[before]);
        }
    }
}

/// Every polyline that [`longer_than_two`] keeps has more than two points.
pub proof fn lemma_longer_than_two(lines: Seq<Path<usize>>)
    ensures
        forall|k: int|
            0 <= k < longer_than_two(lines).len() ==> (#[trigger] longer_than_two(
                lines,
            )[k]).points.len() > 2,
    decreases lines.len(),
{
    if lines.len() > 0 {
        lemma_longer_than_two(lines.drop_last());
        let before = longer_than_two(lines.drop_last());
        assert forall|k: int| 0 <= k < longer_than_two(lines).len() implies (
        #[trigger] longer_than_two(lines)[k]).points.len() > 2 by {
            if k < before.len() {
                assert(longer_than_two(lines)[k] == before[k]);
            }
        }
    }
}

/// Every polyline that [`longer_than_two`] keeps is one of the polylines,
/// and two that it keeps stand in the order in which they stood.
pub proof fn lemma_longer_than_two_order(lines: Seq<Path<usize>>)
    ensures
        forall|k: int|
            0 <= k < longer_than_two(lines).len() ==> exists|m: int|
                0 <= m < lines.len() && lines[m] == #[trigger] longer_than_two(lines)[k],
        forall|k1: int, k2: int|
            0 <= k1 < k2 < longer_than_two(lines).len() ==> exists|m1: int, m2: int|
                0 <= m1 < m2 < lines.len() && lines[m1] == #[trigger] longer_than_two(lines)[k1]
                    && lines[m2] == #[trigger] longer_than_two(lines)[k2],
    decreases lines.len(),
{
    if lines.len() > 0 {
        let shorter = lines.drop_last();
        let before = longer_than_two(shorter);
        let kept = longer_than_two(lines);
        lemma_longer_than_two_order(shorter);
        assert forall|k: int| 0 <= k < kept.len() implies exists|m: int|
            0 <= m < lines.len() && lines[m] == #[trigger] kept[k] by {
            if k < before.len() {
                let m = choose|m: int| 0 <= m < shorter.len() && shorter[m] == before[k];
                assert(lines[m] == kept[k]);
            } else {
                assert(lines[lines.len() - 1] == kept[k]);
            }
        }
        assert forall|k1: int, k2: int| 0 <= k1 < k2 < kept.len() implies exists|m1: int, m2: int|
            0 <= m1 < m2 < lines.len() && lines[m1] == #[trigger] kept[k1] && lines[m2]
                == #[trigger] kept[k2] by {
            if k2 < before.len() {
                let (m1, m2) = choose|m1: int, m2: int|
                    0 <= m1 < m2 < shorter.len() && shorter[m1] == before[k1] && shorter[m2]
                        == before[k2];
                assert(lines[m1] == kept[k1] && lines[m2] == kept[k2]);
            } else {
                let m1 = choose|m: int| 0 <= m < shorter.len() && shorter[m] == before[k1];
                assert(lines[m1] == kept[k1] && lines[lines.len() - 1] == kept[k2]);
            }
        }
    }
}

/// No two of the contours that stitching leaves join: each is a loop of
/// its own, or an open run whose ends meet no end of another.
pub proof fn lemma_stitched_settled(lines: Seq<Path<Vertex>>, eps: int)
    ensures
        settled(stitched(lines, eps).1),
{
    let all = merged(without_duplicates(weld_each(Seq::empty(), eps, lines).1));
    let kept = longer_than_two(all);
    lemma_merged_settled(without_duplicates(weld_each(Seq::empty(), eps, lines).1));
    lemma_longer_than_two_order(all);
    assert forall|i: int, j: int| 0 <= i < j < kept.len() implies (#[trigger] join_paths(
        kept[i],
        kept[j],
    )) is None by {
        let (m1, m2) = choose|m1: int, m2: int|
            0 <= m1 < m2 < all.len() && all[m1] == kept[i] && all[m2] == kept[j];
        assert(join_paths(all[m1], all[m2]) is None);
    }
}

/// Welds every point of every line into `pool`, line by line.
fn weld_lines(lines: &Vec<Polygon>, pool: &mut VertexPool) -> (r: Vec<IndexPolygon>)
    ensures
        final(pool)@.points == weld_each(old(pool)@.points, old(pool)@.eps, paths(lines@)).0,
        paths(r@) == weld_each(old(pool)@.points, old(pool)@.eps, paths(lines@)).1,
        final(pool)@.eps == old(pool)@.eps,
        all_below(paths(r@), final(pool)@.points.len() as int),
        forall|beside: bool|
            all_in_form(paths(lines@), beside) ==> #[trigger] all_in_form(paths(r@), beside),
{
    let mut r: Vec<IndexPolygon> = Vec::new();
    let mut i: usize = 0;
    while i < lines.len()
        invariant
            i <= lines.len(),
            pool@.eps == old(pool)@.eps,
            pool@.points == weld_each(
                old(pool)@.points,
                old(pool)@.eps,
                paths(lines@).take(i as int),
            ).0,
            paths(r@) == weld_each(
                old(pool)@.points,
                old(pool)@.eps,
                paths(lines@).take(i as int),
            ).1,
            all_below(paths(r@), pool@.points.len() as int),
            r@.len() == i,
            forall|k: int|
                0 <= k < i ==> (#[trigger] paths(r@)[k]).normals == paths(lines@)[k].normals
                    && paths(r@)[k].points.len() == paths(lines@)[k].points.len(),
        decreases lines.len() - i,
    {
        let ghost before = paths(r@);
        let ghost size = pool@.points.len();
        assert(paths(lines@).take(i + 1).drop_last() =~= paths(lines@).take(i as int));
        assert(paths(lines@).take(i + 1).last() == lines@[i as int]@);
        let indexed: IndexPolygon = lines[i].to_indices(pool);
        r.push(indexed);
        assert(paths(r@) =~= before.push(indexed@));
        assert forall|k: int| 0 <= k < paths(r@).len() implies below(
            #[trigger] paths(r@)[k],
            pool@.points.len() as int,
        ) by {
            if k < before.len() {
                assert(below(before[k], size as int));
            }
        }
        assert forall|k: int| 0 <= k < i + 1 implies (#[trigger] paths(r@)[k]).normals == paths(
            lines@,
        )[k].normals && paths(r@)[k].points.len() == paths(lines@)[k].points.len() by {
            if k < i {
                assert(paths(r@)[k] == before[k]);
            }
        }
        i += 1;
    }
    assert(paths(lines@).take(i as int) =~= paths(lines@));
    assert forall|beside: bool| all_in_form(paths(lines@), beside) implies #[trigger] all_in_form(
        paths(r@),
        beside,
    ) by {
        assert forall|k: int| 0 <= k < paths(r@).len() implies (#[trigger] paths(r@)[k]).in_form(
            beside,
        ) by {
            assert(paths(lines@)[k].in_form(beside));
        }
    }
    r
}

/// Whether two polylines run through the same indices in the same order.
fn same_points(a: &Vec<usize>, b: &Vec<usize>) -> (r: bool)
    ensures
        r == (a@ == b@),
{
    if a.len() != b.len() {
        return false;
    }
    let mut k: usize = 0;
    while k < a.len()
        invariant
            k <= a.len(),
            a.len() == b.len(),
            forall|i: int| 0 <= i < k ==> a@[i] == b@[i],
        decreases a.len() - k,
    {
        if a[k] != b[k] {
            return false;
        }
        k += 1;
    }
    assert(a@ =~= b@);
    true
}

/// Whether `a` runs through the indices of `b` in the opposite order.
fn mirrored_points(a: &Vec<usize>, b: &Vec<usize>) -> (r: bool)
    ensures
        r == (a@ == b@.reverse()),
{
    let n: usize = a.len();
    if n != b.len() {
        return false;
    }
    let mut k: usize = 0;
    while k < n
        invariant
            k <= n,
            n == a.len(),
            n == b.len(),
            forall|i: int| 0 <= i < k ==> a@[i] == b@[n - 1 - i],
        decreases n - k,
    {
        if a[k] != b[n - 1 - k] {
            assert(b@.reverse()[k as int] == b@[n - 1 - k]);
            return false;
        }
        k += 1;
    }
    assert(a@ =~= b@.reverse());
    true
}

/// Drops each polyline that repeats an earlier one: see
/// [`without_duplicates`].
fn drop_duplicates(lines: &Vec<IndexPolygon>) -> (kept: Vec<IndexPolygon>)
    ensures
        paths(kept@) == without_duplicates(paths(lines@)),
        forall|beside: bool|
            all_in_form(paths(lines@), beside) ==> #[trigger] all_in_form(paths(kept@), beside),
        forall|n: int| all_below(paths(lines@), n) ==> #[trigger] all_below(paths(kept@), n),
{
    let mut kept: Vec<IndexPolygon> = Vec::new();
    let mut i: usize = 0;
    while i < lines.len()
        invariant
            i <= lines.len(),
            paths(kept@) == without_duplicates(paths(lines@).take(i as int)),
            forall|k: int|
                0 <= k < kept@.len() ==> exists|m: int|
                    0 <= m < lines@.len() && (#[trigger] paths(kept@)[k]) == paths(lines@)[m],
        decreases lines.len() - i,
    {
        let ghost before = paths(kept@);
        assert(paths(lines@).take(i + 1).drop_last() =~= paths(lines@).take(i as int));
        assert(paths(lines@).take(i + 1).last() == lines@[i as int]@);
        let mut found: bool = false;
        let mut k: usize = 0;
        while k < kept.len() && !found
            invariant
                k <= kept.len(),
                i < lines.len(),
                paths(kept@) == before,
                found ==> occurs(before, lines@[i as int]@),
                !found ==> forall|m: int|
                    0 <= m < k ==> !same_fragment(#[trigger] before[m], lines@[i as int]@),
            decreases kept.len() - k, (if found {
                0int
            } else {
                1int
            }),
        {
            assert(before[k as int] == kept@[k as int]@);
            if same_points(&kept[k].points, &lines[i].points) || mirrored_points(
                &kept[k].points,
                &lines[i].points,
            ) {
                found = true;
            } else {
                k += 1;
            }
        }
        if !found {
            kept.push(lines[i].clone());
            assert(paths(kept@) =~= before.push(lines@[i as int]@));
            assert forall|k: int| 0 <= k < kept@.len() implies exists|m: int|
                0 <= m < lines@.len() && (#[trigger] paths(kept@)[k]) == paths(lines@)[m] by {
                if k < before.len() {
                    assert(paths(kept@)[k] == before[k]);
                } else {
                    assert(paths(kept@)[k] == paths(lines@)[i as int]);
                }
            }
        }
        i += 1;
    }
    assert(paths(lines@).take(i as int) =~= paths(lines@));
    assert forall|beside: bool| all_in_form(paths(lines@), beside) implies #[trigger] all_in_form(
        paths(kept@),
        beside,
    ) by {
        assert forall|k: int| 0 <= k < paths(kept@).len() implies (#[trigger] paths(
            kept@,
        )[k]).in_form(beside) by {
            let m = choose|m: int| 0 <= m < lines@.len() && paths(kept@)[k] == paths(lines@)[m];
            assert(paths(lines@)[m].in_form(beside));
        }
    }
    assert forall|n: int| all_below(paths(lines@), n) implies #[trigger] all_below(
        paths(kept@),
        n,
    ) by {
        assert forall|k: int| 0 <= k < paths(kept@).len() implies below(
            #[trigger] paths(kept@)[k],
            n,
        ) by {
            let m = choose|m: int| 0 <= m < lines@.len() && paths(kept@)[k] == paths(lines@)[m];
            assert(below(paths(lines@)[m], n));
        }
    }
    kept
}

/// Merges the polylines end to end until no two of them join: see
/// [`merged`].
fn merge_lines(lines: Vec<IndexPolygon>, Ghost(bound): Ghost<int>) -> (r: Vec<IndexPolygon>)
    requires
        all_wf(paths(lines@)),
        all_below(paths(lines@), bound),
    ensures
        paths(r@) == merged(paths(lines@)),
        all_below(paths(r@), bound),
        all_in_form(paths(r@), all_in_form(paths(lines@), true)),
{
    let ghost start = paths(lines@);
    let ghost beside = all_in_form(start, true);
    let mut lines = lines;
    let mut i: usize = 0;
    let mut j: usize = 1;
    let mut merged_any: bool = false;
    while i < lines.len() || merged_any
        invariant
            i < lines.len() ==> i < j,
            i <= lines.len(),
            all_in_form(paths(lines@), beside),
            all_below(paths(lines@), bound),
            merge_from(paths(lines@), i as int, j as int, merged_any) == merged(start),
        decreases lines.len(), (if merged_any {
                1int
            } else {
                0int
            }), lines.len() - i, lines.len() - j,
    {
        let ghost now = paths(lines@);
        if i >= lines.len() {
            i = 0;
            j = 1;
            merged_any = false;
        } else if j >= lines.len() {
            i += 1;
            if i < lines.len() {
                j = i + 1;
            } else {
                assert(merge_from(now, i as int, j as int, merged_any) == merge_from(
                    now,
                    i as int,
                    i + 1,
                    merged_any,
                ));
            }
        } else {
            assert(now[i as int] == lines@[i as int]@);
            assert(now[j as int] == lines@[j as int]@);
            assert(now[i as int].in_form(beside) && now[j as int].in_form(beside));
            assert(below(now[i as int], bound) && below(now[j as int], bound));
            let other: IndexPolygon = lines[j].clone();
            match lines[i].join(other) {
                Some(joined) => {
                    proof {
                        lemma_join_paths_len(now[i as int], now[j as int]);
                        lemma_join_paths_below(now[i as int], now[j as int], bound);
                    }
                    lines.remove(j);
                    lines.set(i, joined);
                    assert(paths(lines@) =~= now.remove(j as int).update(i as int, joined@));
                    assert forall|k: int| 0 <= k < paths(lines@).len() implies (#[trigger] paths(
                        lines@,
                    )[k]).in_form(beside) && below(paths(lines@)[k], bound) by {
                        if k == i {
                        } else if k < j {
                            assert(paths(lines@)[k] == now[k]);
                        } else {
                            assert(paths(lines@)[k] == now[k + 1]);
                        }
                    }
                    j = i + 1;
                    merged_any = true;
                },
                None => {
                    j += 1;
                },
            }
        }
    }
    lines
}

/// Keeps the polylines of more than two points: see [`longer_than_two`].
fn keep_long(lines: &Vec<IndexPolygon>, Ghost(bound): Ghost<int>, Ghost(beside): Ghost<bool>) -> (r:
    Vec<IndexPolygon>)
    requires
        all_below(paths(lines@), bound),
        all_in_form(paths(lines@), beside),
    ensures
        paths(r@) == longer_than_two(paths(lines@)),
        all_below(paths(r@), bound),
        all_in_form(paths(r@), beside),
{
    let mut r: Vec<IndexPolygon> = Vec::new();
    let mut i: usize = 0;
    while i < lines.len()
        invariant
            i <= lines.len(),
            all_below(paths(lines@), bound),
            all_in_form(paths(lines@), beside),
            paths(r@) == longer_than_two(paths(lines@).take(i as int)),
            all_below(paths(r@), bound),
            all_in_form(paths(r@), beside),
        decreases lines.len() - i,
    {
        let ghost before = paths(r@);
        assert(paths(lines@).take(i + 1).drop_last() =~= paths(lines@).take(i as int));
        assert(paths(lines@).take(i + 1).last() == lines@[i as int]@);
        if lines[i].points.len() > 2 {
            r.push(lines[i].clone());
            assert(paths(r@) =~= before.push(lines@[i as int]@));
            assert forall|k: int| 0 <= k < paths(r@).len() implies below(
                #[trigger] paths(r@)[k],
                bound,
            ) && paths(r@)[k].in_form(beside) by {
                if k < before.len() {
                    assert(paths(r@)[k] == before[k]);
                } else {
                    assert(paths(r@)[k] == paths(lines@)[i as int]);
                }
            }
        }
        i += 1;
    }
    assert(paths(lines@).take(i as int) =~= paths(lines@));
    r
}

/// Whether the polylines hold their normals in one of the two forms, all
/// of them in the same: what [`connect_lines`] asks of its fragments.
pub fn can_connect(lines: &Vec<Polygon>) -> (r: bool)
    ensures
        r == all_wf(paths(lines@)),
{
    let mut beside: bool = true;
    let mut edges: bool = true;
    let mut i: usize = 0;
    while i < lines.len()
        invariant
            i <= lines.len(),
            beside == all_in_form(paths(lines@).take(i as int), true),
            edges == all_in_form(paths(lines@).take(i as int), false),
        decreases lines.len() - i,
    {
        let ghost done = paths(lines@).take(i as int);
        let ghost more = paths(lines@).take(i + 1);
        let n: usize = lines[i].points.len();
        let per_point: bool = lines[i].normals.len() == n;
        let per_edge: bool = n > 0 && lines[i].normals.len() == n - 1;
        proof {
            assert(more[i as int] == lines@[i as int]@);
            assert forall|b: bool| #[trigger] all_in_form(more, b) == (all_in_form(done, b)
                && lines@[i as int]@.in_form(b)) by {
                if all_in_form(more, b) {
                    assert forall|k: int| 0 <= k < done.len() implies (#[trigger] done[k]).in_form(
                        b,
                    ) by {
                        assert(more[k].in_form(b));
                    }
                    assert(more[i as int].in_form(b));
                }
                if all_in_form(done, b) && lines@[i as int]@.in_form(b) {
                    assert forall|k: int| 0 <= k < more.len() implies (#[trigger] more[k]).in_form(
                        b,
                    ) by {
                        if k < i {
                            assert(done[k].in_form(b));
                        }
                    }
                }
            }
        }
        beside = beside && per_point;
        edges = edges && per_edge;
        i += 1;
    }
    assert(paths(lines@).take(i as int) =~= paths(lines@));
    beside || edges
}

/// Stitches fragments into contours.
///
/// Every point of every fragment is welded into one pool with the given
/// tolerance; a fragment that runs through the same indices as an earlier
/// one, in either direction, is dropped; the rest are merged end to end
/// until no two of them join; what is left with no more than two points is
/// dropped. The contours come back with the coordinates that the pool holds
/// for their indices: as `Ok` where each of them ends on the index on which
/// it starts, and as [`IncompleteContour`] where one of them does not.
///
/// The fragments hold their normals in either form, one for each edge or
/// one beside each point, all of them in the same; so do the contours.
/// Where every end of a fragment meets exactly one other end, as with the
/// sides of polygons in any order and direction, every contour closes.
pub fn connect_lines(lines: &Vec<Polygon>, tolerance: u32) -> (r: Result<
    Vec<Polygon>,
    IncompleteContour,
>)
    requires
        all_wf(paths(lines@)),
    ensures
        match r {
            Ok(polygons) => {
                &&& paths(polygons@) == contours(paths(lines@), tolerance as int)
                &&& all_closed(stitched(paths(lines@), tolerance as int).1)
                &&& forall|k: int| 0 <= k < polygons@.len() ==> (#[trigger] polygons@[k])@.closed()
            },
            Err(e) => {
                &&& paths(e.contours@) == contours(paths(lines@), tolerance as int)
                &&& !all_closed(stitched(paths(lines@), tolerance as int).1)
                &&& e.first_open == first_open(stitched(paths(lines@), tolerance as int).1)
                &&& e.first_open < e.contours@.len()
            },
        },
        forall|k: int|
            0 <= k < contours(paths(lines@), tolerance as int).len() ==> (#[trigger] contours(
                paths(lines@),
                tolerance as int,
            )[k]).points.len() > 2,
        settled(stitched(paths(lines@), tolerance as int).1),
        all_in_form(
            contours(paths(lines@), tolerance as int),
            all_in_form(paths(lines@), true),
        ),
        paired(without_duplicates(weld_each(Seq::empty(), tolerance as int, paths(lines@)).1))
            ==> r is Ok,
{
    proof {
        lemma_stitched_settled(paths(lines@), tolerance as int);
        if paired(
            without_duplicates(weld_each(Seq::empty(), tolerance as int, paths(lines@)).1),
        ) {
            lemma_stitched_closed(paths(lines@), tolerance as int);
        }
    }
    let ghost beside = all_in_form(paths(lines@), true);
    let mut pool: VertexPool = VertexPool::new(tolerance);
    let welded: Vec<IndexPolygon> = weld_lines(lines, &mut pool);
    let ghost bound = pool@.points.len() as int;
    let unique: Vec<IndexPolygon> = drop_duplicates(&welded);
    let joined: Vec<IndexPolygon> = merge_lines(unique, Ghost(bound));
    assert(all_in_form(paths(unique@), beside));
    let kept: Vec<IndexPolygon> = keep_long(&joined, Ghost(bound), Ghost(beside));
    let ghost index_lines = stitched(paths(lines@), tolerance as int).1;
    assert(paths(kept@) == index_lines);
    proof {
        lemma_longer_than_two(merged(without_duplicates(paths(welded@))));
    }
    let mut polygons: Vec<Polygon> = Vec::new();
    let mut open: usize = kept.len();
    let mut i: usize = 0;
    while i < kept.len()
        invariant
            i <= kept.len(),
            paths(kept@) == index_lines,
            all_below(index_lines, pool@.points.len() as int),
            polygons@.len() == i,
            forall|k: int|
                0 <= k < i ==> (#[trigger] polygons@[k])@ == resolve(index_lines[k], pool@.points),
            open == if first_open(index_lines.take(i as int)) < i {
                first_open(index_lines.take(i as int))
            } else {
                kept@.len() as int
            },
        decreases kept.len() - i,
    {
        assert(index_lines.take(i + 1).drop_last() =~= index_lines.take(i as int));
        assert(index_lines.take(i + 1).last() == kept@[i as int]@);
        assert(below(index_lines[i as int], pool@.points.len() as int));
        proof {
            lemma_first_open(index_lines.take(i as int));
        }
        if open == kept.len() && !kept[i].is_closed() {
            open = i;
        }
        polygons.push(kept[i].to_polygon(copy_vec(pool.vertices())));
        i += 1;
    }
    assert(index_lines.take(i as int) =~= index_lines);
    assert(paths(polygons@) =~= contours(paths(lines@), tolerance as int));
    assert forall|k: int| 0 <= k < polygons@.len() implies (#[trigger] paths(polygons@)[k]).in_form(
        beside,
    ) by {
        assert(index_lines[k].in_form(beside));
    }
    proof {
        lemma_first_open(index_lines);
        if open == kept.len() {
            assert forall|k: int| 0 <= k < polygons@.len() implies (
            #[trigger] polygons@[k])@.closed() by {
                assert(index_lines[k].closed());
                assert(polygons@[k]@ == resolve(index_lines[k], pool@.points));
            }
        }
    }
    if open == kept.len() {
        Ok(polygons)
    } else {
        Err(IncompleteContour { contours: polygons, first_open: open })
    }
}

} // verus!
