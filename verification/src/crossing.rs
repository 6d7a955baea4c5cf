//! Crossing insertion: where an edge of one polygon meets an edge of
//! another, the meeting point becomes a point of both.

use crate::geometry::Vertex;
use crate::polygons::{get_line_intersection, intersection, Path, Polygon};
use vstd::prelude::*;

verus! {

/// The index after `i` in a run of `len` points, the first following the
/// last.
pub open spec fn wrap_next(i: int, len: int) -> int {
    if i + 1 >= len {
        0
    } else {
        i + 1
    }
}

/// Whether `p` has an edge `i`: a point `i` with the normal of the edge
/// that leaves it. With a normal beside each point the last point has an
/// edge too, which leads back to the first point.
pub open spec fn has_edge(p: Path<Vertex>, i: int) -> bool {
    0 <= i < p.points.len() && i < p.normals.len()
}

/// Where edge `i` of `a` meets edge `j` of `b`. Edge `i` runs from point
/// `i` to the point after it, the last edge back to the first point.
pub open spec fn edge_crossing(a: Path<Vertex>, i: int, b: Path<Vertex>, j: int) -> Option<Vertex> {
    intersection(
        a.points[i],
        a.points[wrap_next(i, a.points.len() as int)],
        b.points[j],
        b.points[wrap_next(j, b.points.len() as int)],
    )
}

/// Whether `x` lies on edge `i` of `p` but on neither of its ends, so that
/// `p` does not hold it there yet.
pub open spec fn splits(p: Path<Vertex>, i: int, x: Vertex) -> bool {
    x != p.points[i] && x != p.points[wrap_next(i, p.points.len() as int)]
}

/// The two polygons after the scan for crossings, from the state in which
/// edge `i` of `a` is held against edge `j` of `b`.
///
/// Where the two edges meet in a point that splits the edge of `a`, the
/// point goes into `a` behind point `i` with the normal of edge `i`; the
/// scan goes on with the part of the edge before it, and comes to the part
/// behind it as to the next edge of `a`. Where the point splits the edge of
/// `b`, it goes into `b` in the same way, and the scan passes over both
/// parts of that edge. When edge `i` has been held against every edge of
/// `b`, the next edge of `a` starts with the first edge of `b`. The edges
/// of a polygon are those that have a normal: see [`has_edge`]. A polygon
/// that has as many points as a vector can hold ends the scan.
pub open spec fn insert_from(a: Path<Vertex>, b: Path<Vertex>, i: int, j: int) -> (
    Path<Vertex>,
    Path<Vertex>,
)
    decreases 2 * usize::MAX - a.points.len() - b.points.len(), a.points.len() - i, b.points.len()
        - j,
{
    if i < 0 || j < 0 || !has_edge(a, i) || a.points.len() >= usize::MAX || b.points.len()
        >= usize::MAX {
        (a, b)
    } else if !has_edge(b, j) {
        insert_from(a, b, i + 1, 0)
    } else {
        match edge_crossing(a, i, b, j) {
            None => insert_from(a, b, i, j + 1),
            Some(x) => {
                let in_a = splits(a, i, x);
                let in_b = splits(b, j, x);
                insert_from(
                    if in_a {
                        a.insert(i + 1, x, a.normals[i])
                    } else {
                        a
                    },
                    if in_b {
                        b.insert(j + 1, x, b.normals[j])
                    } else {
                        b
                    },
                    i,
                    if in_b {
                        j + 2
                    } else {
                        j + 1
                    },
                )
            },
        }
    }
}

/// The two polygons with every crossing that the scan finds put into both.
pub open spec fn with_crossings(a: Path<Vertex>, b: Path<Vertex>) -> (Path<Vertex>, Path<Vertex>) {
    insert_from(a, b, 0, 0)
}

/// No edge of `a` meets an edge of `b`.
pub open spec fn no_crossing(a: Path<Vertex>, b: Path<Vertex>) -> bool {
    forall|i: int, j: int|
        0 <= i < a.points.len() && 0 <= j < b.points.len() ==> (#[trigger] edge_crossing(
            a,
            i,
            b,
            j,
        )) is None
}

/// Two polygons of which no edge meets an edge of the other stay as they
/// are, from any state of the scan.
pub proof fn lemma_insert_nothing(a: Path<Vertex>, b: Path<Vertex>, i: int, j: int)
    requires
        no_crossing(a, b),
    ensures
        insert_from(a, b, i, j) == (a, b),
    decreases a.points.len() - i, b.points.len() - j,
{
    if i < 0 || j < 0 || !has_edge(a, i) || a.points.len() >= usize::MAX || b.points.len()
        >= usize::MAX {
    } else if !has_edge(b, j) {
        lemma_insert_nothing(a, b, i + 1, 0);
    } else {
        assert(edge_crossing(a, i, b, j) is None);
        lemma_insert_nothing(a, b, i, j + 1);
    }
}

/// Every point of `p` is a point of `q`.
pub open spec fn keeps(p: Path<Vertex>, q: Path<Vertex>) -> bool {
    forall|k: int| 0 <= k < p.points.len() ==> q.points.contains(#[trigger] p.points[k])
}

/// Every point of `grown` is a point of `p` or a point of `other`.
pub open spec fn grown_by_shared(
    p: Path<Vertex>,
    grown: Path<Vertex>,
    other: Path<Vertex>,
) -> bool {
    forall|k: int|
        0 <= k < grown.points.len() ==> p.points.contains(#[trigger] grown.points[k])
            || other.points.contains(grown.points[k])
}

/// A run of points with one more put in holds that one, every point that
/// it held before, and no other.
pub proof fn lemma_insert_contains(points: Seq<Vertex>, at: int, x: Vertex)
    requires
        0 <= at <= points.len(),
    ensures
        points.insert(at, x).contains(x),
        forall|v: Vertex| points.contains(v) ==> #[trigger] points.insert(at, x).contains(v),
        forall|v: Vertex|
            #[trigger] points.insert(at, x).contains(v) ==> v == x || points.contains(v),
{
    let longer = points.insert(at, x);
    points.insert_ensures(at, x);
    assert(longer[at] == x);
    assert forall|v: Vertex| points.contains(v) implies #[trigger] longer.contains(v) by {
        let k = choose|k: int| 0 <= k < points.len() && points[k] == v;
        if k < at {
            assert(longer[k] == v);
        } else {
            assert(longer[k + 1] == v);
        }
    }
    assert forall|v: Vertex| #[trigger] longer.contains(v) implies v == x || points.contains(v) by {
        let k = choose|k: int| 0 <= k < longer.len() && longer[k] == v;
        if k < at {
            assert(points[k] == v);
        } else if k > at {
            assert(longer[(k - 1) + 1] == points[k - 1]);
        }
    }
}

/// The scan for crossings takes no point out of either polygon, and leaves
/// the normals of each in the form in which they were.
pub proof fn lemma_insert_keeps(a: Path<Vertex>, b: Path<Vertex>, i: int, j: int)
    requires
        a.wf(),
        b.wf(),
    ensures
        keeps(a, insert_from(a, b, i, j).0),
        keeps(b, insert_from(a, b, i, j).1),
        insert_from(a, b, i, j).0.same_form(a),
        insert_from(a, b, i, j).1.same_form(b),
        insert_from(a, b, i, j).0.points.len() >= a.points.len(),
        insert_from(a, b, i, j).1.points.len() >= b.points.len(),
    decreases 2 * usize::MAX - a.points.len() - b.points.len(), a.points.len() - i, b.points.len()
        - j,
{
    if i < 0 || j < 0 || !has_edge(a, i) || a.points.len() >= usize::MAX || b.points.len()
        >= usize::MAX {
    } else if !has_edge(b, j) {
        lemma_insert_keeps(a, b, i + 1, 0);
    } else {
        match edge_crossing(a, i, b, j) {
            None => {
                lemma_insert_keeps(a, b, i, j + 1);
            },
            Some(x) => {
                let in_a = splits(a, i, x);
                let in_b = splits(b, j, x);
                let a2 = if in_a {
                    a.insert(i + 1, x, a.normals[i])
                } else {
                    a
                };
                let b2 = if in_b {
                    b.insert(j + 1, x, b.normals[j])
                } else {
                    b
                };
                let j2 = if in_b {
                    j + 2
                } else {
                    j + 1
                };
                lemma_insert_contains(a.points, i + 1, x);
                lemma_insert_contains(b.points, j + 1, x);
                a.points.insert_ensures(i + 1, x);
                b.points.insert_ensures(j + 1, x);
                a.normals.insert_ensures(i + 1, a.normals[i]);
                b.normals.insert_ensures(j + 1, b.normals[j]);
                lemma_insert_keeps(a2, b2, i, j2);
                let r = insert_from(a, b, i, j);
                assert forall|k: int| 0 <= k < a.points.len() implies r.0.points.contains(
                    #[trigger] a.points[k],
                ) by {
                    let v = a.points[k];
                    assert(a2.points.contains(v));
                    let m = choose|m: int| 0 <= m < a2.points.len() && a2.points[m] == v;
                    assert(r.0.points.contains(a2.points[m]));
                }
                assert forall|k: int| 0 <= k < b.points.len() implies r.1.points.contains(
                    #[trigger] b.points[k],
                ) by {
                    let v = b.points[k];
                    assert(b2.points.contains(v));
                    let m = choose|m: int| 0 <= m < b2.points.len() && b2.points[m] == v;
                    assert(r.1.points.contains(b2.points[m]));
                }
            },
        }
    }
}

/// An edge of no length meets no edge.
proof fn lemma_no_length_meets_nothing(v: Vertex, p3: Vertex, p4: Vertex)
    ensures
        intersection(v, v, p3, p4) is None,
        intersection(p3, p4, v, v) is None,
{
    let s2x = p4.x - p3.x;
    let s2y = p4.y - p3.y;
    assert(0 * s2y - s2x * 0 == 0) by (nonlinear_arith);
    assert(s2x * 0 - 0 * s2y == 0) by (nonlinear_arith);
}

/// The scan for crossings leaves a closed polygon closed: no point goes in
/// before its first point or behind its last.
pub proof fn lemma_insert_closed(a: Path<Vertex>, b: Path<Vertex>, i: int, j: int)
    requires
        a.wf(),
        b.wf(),
    ensures
        a.closed() ==> insert_from(a, b, i, j).0.closed(),
        b.closed() ==> insert_from(a, b, i, j).1.closed(),
    decreases 2 * usize::MAX - a.points.len() - b.points.len(), a.points.len() - i, b.points.len()
        - j,
{
    if i < 0 || j < 0 || !has_edge(a, i) || a.points.len() >= usize::MAX || b.points.len()
        >= usize::MAX {
    } else if !has_edge(b, j) {
        lemma_insert_closed(a, b, i + 1, 0);
    } else {
        match edge_crossing(a, i, b, j) {
            None => {
                lemma_insert_closed(a, b, i, j + 1);
            },
            Some(x) => {
                let in_a = splits(a, i, x);
                let in_b = splits(b, j, x);
                let a2 = if in_a {
                    a.insert(i + 1, x, a.normals[i])
                } else {
                    a
                };
                let b2 = if in_b {
                    b.insert(j + 1, x, b.normals[j])
                } else {
                    b
                };
                let j2 = if in_b {
                    j + 2
                } else {
                    j + 1
                };
                a.points.insert_ensures(i + 1, x);
                b.points.insert_ensures(j + 1, x);
                a.normals.insert_ensures(i + 1, a.normals[i]);
                b.normals.insert_ensures(j + 1, b.normals[j]);
                let bn = wrap_next(j, b.points.len() as int);
                let an = wrap_next(i, a.points.len() as int);
                if a.closed() && i == a.points.len() - 1 {
                    lemma_no_length_meets_nothing(a.points[i], b.points[j], b.points[bn]);
                }
                if b.closed() && j == b.points.len() - 1 {
                    lemma_no_length_meets_nothing(b.points[j], a.points[i], a.points[an]);
                }
                if a.closed() && in_a {
                    assert(a2.points[0] == a.points[0]);
                    assert(a2.points[a2.points.len() - 1] == a.points[a.points.len() - 1]);
                }
                if b.closed() && in_b {
                    assert(b2.points[0] == b.points[0]);
                    assert(b2.points[b2.points.len() - 1] == b.points[b.points.len() - 1]);
                }
                lemma_insert_closed(a2, b2, i, j2);
            },
        }
    }
}

/// After the scan for crossings, every point of either polygon that the
/// polygon did not hold before is a point of the other polygon too.
pub proof fn lemma_crossings_shared(a: Path<Vertex>, b: Path<Vertex>, i: int, j: int)
    requires
        a.wf(),
        b.wf(),
    ensures
        grown_by_shared(a, insert_from(a, b, i, j).0, insert_from(a, b, i, j).1),
        grown_by_shared(b, insert_from(a, b, i, j).1, insert_from(a, b, i, j).0),
    decreases 2 * usize::MAX - a.points.len() - b.points.len(), a.points.len() - i, b.points.len()
        - j,
{
    if i < 0 || j < 0 || !has_edge(a, i) || a.points.len() >= usize::MAX || b.points.len()
        >= usize::MAX {
        assert forall|k: int| 0 <= k < a.points.len() implies a.points.contains(
            #[trigger] a.points[k],
        ) by {}
        assert forall|k: int| 0 <= k < b.points.len() implies b.points.contains(
            #[trigger] b.points[k],
        ) by {}
    } else if !has_edge(b, j) {
        lemma_crossings_shared(a, b, i + 1, 0);
    } else {
        match edge_crossing(a, i, b, j) {
            None => {
                lemma_crossings_shared(a, b, i, j + 1);
            },
            Some(x) => {
                let in_a = splits(a, i, x);
                let in_b = splits(b, j, x);
                let a2 = if in_a {
                    a.insert(i + 1, x, a.normals[i])
                } else {
                    a
                };
                let b2 = if in_b {
                    b.insert(j + 1, x, b.normals[j])
                } else {
                    b
                };
                let j2 = if in_b {
                    j + 2
                } else {
                    j + 1
                };
                let r = insert_from(a, b, i, j);
                lemma_insert_contains(a.points, i + 1, x);
                lemma_insert_contains(b.points, j + 1, x);
                a.points.insert_ensures(i + 1, x);
                b.points.insert_ensures(j + 1, x);
                a.normals.insert_ensures(i + 1, a.normals[i]);
                b.normals.insert_ensures(j + 1, b.normals[j]);
                lemma_crossings_shared(a2, b2, i, j2);
                lemma_insert_keeps(a2, b2, i, j2);
                // the crossing is a point of both polygons from here on
                assert(a2.points.contains(x)) by {
                    if !in_a {
                        let n = wrap_next(i, a.points.len() as int);
                        assert(a.points[i] == x || a.points[n] == x);
                    }
                }
                assert(b2.points.contains(x)) by {
                    if !in_b {
                        let n = wrap_next(j, b.points.len() as int);
                        assert(b.points[j] == x || b.points[n] == x);
                    }
                }
                assert(r.0.points.contains(x)) by {
                    let m = choose|m: int| 0 <= m < a2.points.len() && a2.points[m] == x;
                    assert(r.0.points.contains(a2.points[m]));
                }
                assert(r.1.points.contains(x)) by {
                    let m = choose|m: int| 0 <= m < b2.points.len() && b2.points[m] == x;
                    assert(r.1.points.contains(b2.points[m]));
                }
                assert forall|k: int| 0 <= k < r.0.points.len() implies a.points.contains(
                    #[trigger] r.0.points[k],
                ) || r.1.points.contains(r.0.points[k]) by {
                    let v = r.0.points[k];
                    if a2.points.contains(v) && !r.1.points.contains(v) {
                        assert(v == x || a.points.contains(v));
                    }
                }
                assert forall|k: int| 0 <= k < r.1.points.len() implies b.points.contains(
                    #[trigger] r.1.points[k],
                ) || r.0.points.contains(r.1.points[k]) by {
                    let v = r.1.points[k];
                    if b2.points.contains(v) && !r.0.points.contains(v) {
                        assert(v == x || b.points.contains(v));
                    }
                }
            },
        }
    }
}

/// Puts every crossing of `a` and `b` that the scan finds into both: see
/// [`insert_from`].
pub fn insert_crossings(a: &mut Polygon, b: &mut Polygon)
    requires
        old(a)@.wf(),
        old(b)@.wf(),
    ensures
        (final(a)@, final(b)@) == with_crossings(old(a)@, old(b)@),
        final(a)@.same_form(old(a)@),
        final(b)@.same_form(old(b)@),
        final(a)@.points.len() >= old(a)@.points.len(),
        final(b)@.points.len() >= old(b)@.points.len(),
        keeps(old(a)@, final(a)@),
        keeps(old(b)@, final(b)@),
        grown_by_shared(old(a)@, final(a)@, final(b)@),
        grown_by_shared(old(b)@, final(b)@, final(a)@),
        old(a)@.closed() ==> final(a)@.closed(),
        old(b)@.closed() ==> final(b)@.closed(),
{
    proof {
        lemma_insert_closed(old(a)@, old(b)@, 0, 0);
        lemma_insert_keeps(old(a)@, old(b)@, 0, 0);
        lemma_crossings_shared(old(a)@, old(b)@, 0, 0);
    }
    let mut i: usize = 0;
    let mut j: usize = 0;
    while i < a.normals.len() && a.points.len() < usize::MAX && b.points.len() < usize::MAX
        invariant
            a@.wf(),
            b@.wf(),
            insert_from(a@, b@, i as int, j as int) == with_crossings(old(a)@, old(b)@),
        decreases
                2 * usize::MAX - a.points.len() - b.points.len(),
                a.points.len() - i,
                b.points.len() - j,
    {
        if j >= b.normals.len() {
            i += 1;
            j = 0;
        } else {
            let n: usize = a.points.len();
            let m: usize = b.points.len();
            let i2: usize = if i + 1 >= n {
                0
            } else {
                i + 1
            };
            let j2: usize = if j + 1 >= m {
                0
            } else {
                j + 1
            };
            let p1: Vertex = a.points[i];
            let p2: Vertex = a.points[i2];
            let p3: Vertex = b.points[j];
            let p4: Vertex = b.points[j2];
            match get_line_intersection(p1, p2, p3, p4) {
                None => {
                    j += 1;
                },
                Some(x) => {
                    let in_a: bool = x != p1 && x != p2;
                    let in_b: bool = x != p3 && x != p4;
                    if in_a {
                        let normal = a.normals[i];
                        a.insert_point(i + 1, x, normal);
                    }
                    if in_b {
                        let normal = b.normals[j];
                        b.insert_point(j + 1, x, normal);
                        assert(b.points@.len() == m + 1);
                        j += 1;
                    }
                    assert(j < b.points.len());
                    j += 1;
                },
            }
        }
    }
}

} // verus!
