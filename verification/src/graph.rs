//! The graph of next steps: for each point of two polygons, the points
//! that a walk along their boundaries may go to from there.

use crate::geometry::{Normal, Vertex};
use crate::polygons::{Path, Polygon};
use vstd::prelude::*;

verus! {

/// The index of the first point equal to `v`, or the number of points if
/// there is none.
pub open spec fn position(points: Seq<Vertex>, v: Vertex) -> int
    decreases points.len(),
{
    if points.len() == 0 {
        0
    } else {
        let before = position(points.drop_last(), v);
        if before < points.len() - 1 {
            before
        } else if points.last() == v {
            points.len() - 1
        } else {
            points.len() as int
        }
    }
}

/// `position` is the first index that holds `v`.
pub proof fn lemma_position(points: Seq<Vertex>, v: Vertex)
    ensures
        0 <= position(points, v) <= points.len(),
        forall|k: int| 0 <= k < position(points, v) ==> #[trigger] points[k] != v,
        position(points, v) < points.len() ==> points[position(points, v)] == v,
    decreases points.len(),
{
    if points.len() > 0 {
        lemma_position(points.drop_last(), v);
        assert forall|k: int| 0 <= k < position(points, v) implies #[trigger] points[k] != v by {
            if k < points.len() - 1 {
                assert(points[k] == points.drop_last()[k]);
            }
        }
        let before = position(points.drop_last(), v);
        if before < points.len() - 1 {
            assert(points[before] == points.drop_last()[before]);
        }
    }
}

/// A run of points holds `v` just when `position` finds it.
pub proof fn lemma_position_contains(points: Seq<Vertex>, v: Vertex)
    ensures
        points.contains(v) == (position(points, v) < points.len()),
{
    lemma_position(points, v);
    if points.contains(v) {
        let k = choose|k: int| 0 <= k < points.len() && points[k] == v;
        assert(points[k] == v);
    }
}

/// The position of `v` in one run of points followed by another: in the
/// first where it holds `v`, else behind it in the second.
pub proof fn lemma_position_concat(first: Seq<Vertex>, second: Seq<Vertex>, v: Vertex)
    ensures
        position(first + second, v) == if position(first, v) < first.len() {
            position(first, v)
        } else {
            first.len() + position(second, v)
        },
    decreases second.len(),
{
    if second.len() == 0 {
        assert(first + second =~= first);
    } else {
        lemma_position_concat(first, second.drop_last(), v);
        lemma_position(first, v);
        lemma_position(second.drop_last(), v);
        assert((first + second).drop_last() =~= first + second.drop_last());
    }
}

/// The index before `i` in a closed run of `len` points, in which the
/// last point repeats the first.
pub open spec fn prev_index(i: int, len: int) -> int {
    if i == 0 {
        len - 2
    } else {
        i - 1
    }
}

/// The index after `i` in a closed run of `len` points, in which the last
/// point repeats the first.
pub open spec fn next_index(i: int, len: int) -> int {
    if i == len - 1 {
        1
    } else {
        i + 1
    }
}

/// The step from point `i` of `p` back to the point before it, with the
/// normal of the edge between them.
pub open spec fn step_back(p: Path<Vertex>, i: int) -> (Vertex, Normal) {
    let k = prev_index(i, p.points.len() as int);
    (p.points[k], p.normals[k])
}

/// The step from point `i` of `p` on to the point after it, with the
/// normal of the edge between them: normal `i`, and where the last point
/// has no normal beside it, the normal of the first edge, which leaves the
/// same point.
pub open spec fn step_on(p: Path<Vertex>, i: int) -> (Vertex, Normal) {
    (
        p.points[next_index(i, p.points.len() as int)],
        if i < p.normals.len() {
            p.normals[i]
        } else {
            p.normals[0]
        },
    )
}

/// The next steps from point `i` of `own`. Where `other` holds the same
/// point, these are the steps from there back and on along `other`; then,
/// in any case, the step on along `own`. The step back along `own` is
/// never among them. A polygon of fewer than two points offers no step.
pub open spec fn candidates(own: Path<Vertex>, other: Path<Vertex>, i: int) -> Seq<
    (Vertex, Normal),
> {
    let at = position(other.points, own.points[i]);
    let across = if at < other.points.len() && other.points.len() >= 2 {
        seq![step_back(other, at), step_on(other, at)]
    } else {
        Seq::empty()
    };
    let along = if own.points.len() >= 2 {
        seq![step_on(own, i)]
    } else {
        Seq::empty()
    };
    across + along
}

/// Whether `p` has an edge between `from` and `to`, in either direction.
pub open spec fn is_edge(p: Path<Vertex>, from: Vertex, to: Vertex) -> bool {
    exists|i: int|
        {
            &&& 0 <= i < p.points.len()
            &&& #[trigger] p.points[i] == from
            &&& (p.points[next_index(i, p.points.len() as int)] == to || p.points[prev_index(
                i,
                p.points.len() as int,
            )] == to)
        }
}

/// Every next step from a point runs along an edge of one of the two
/// polygons.
pub proof fn lemma_candidates_edges(own: Path<Vertex>, other: Path<Vertex>, i: int, m: int)
    requires
        0 <= i < own.points.len(),
        0 <= m < candidates(own, other, i).len(),
    ensures
        is_edge(own, own.points[i], candidates(own, other, i)[m].0) || is_edge(
            other,
            own.points[i],
            candidates(own, other, i)[m].0,
        ),
{
    let from = own.points[i];
    let at = position(other.points, from);
    lemma_position(other.points, from);
    let across = if at < other.points.len() && other.points.len() >= 2 {
        seq![step_back(other, at), step_on(other, at)]
    } else {
        Seq::empty()
    };
    if m < across.len() {
        assert(other.points[at] == from);
        assert(is_edge(other, from, candidates(own, other, i)[m].0));
    } else {
        assert(own.points[i] == from);
        assert(is_edge(own, from, candidates(own, other, i)[m].0));
    }
}

/// The next steps from every point of `a`, then from every point of `b`.
pub open spec fn multi_graph(a: Path<Vertex>, b: Path<Vertex>) -> Seq<Seq<(Vertex, Normal)>> {
    Seq::new(
        a.points.len() + b.points.len(),
        |k: int|
            if k < a.points.len() {
                candidates(a, b, k)
            } else {
                candidates(b, a, k - a.points.len())
            },
    )
}

/// The contents of a graph of next steps.
pub open spec fn rows(graph: Seq<Vec<(Vertex, Normal)>>) -> Seq<Seq<(Vertex, Normal)>> {
    Seq::new(graph.len(), |k: int| graph[k]@)
}

/// The index of the first point equal to `v`: see [`position`].
pub fn find_position(points: &Vec<Vertex>, v: Vertex) -> (at: usize)
    ensures
        at == position(points@, v),
        at <= points@.len(),
        at < points@.len() ==> points@[at as int] == v,
        (at < points@.len()) == points@.contains(v),
{
    proof {
        lemma_position_contains(points@, v);
    }
    let mut i: usize = 0;
    while i < points.len()
        invariant
            i <= points.len(),
            position(points@.take(i as int), v) == i,
        decreases points.len() - i,
    {
        assert(points@.take(i + 1).drop_last() =~= points@.take(i as int));
        if points[i] == v {
            proof {
                lemma_position_concat(points@.take(i + 1), points@.skip(i + 1), v);
                assert(points@.take(i + 1) + points@.skip(i + 1) =~= points@);
            }
            return i;
        }
        i += 1;
    }
    assert(points@.take(i as int) =~= points@);
    i
}

/// The next steps from point `i` of `own`: see [`candidates`].
fn next_steps(own: &Polygon, other: &Polygon, i: usize) -> (steps: Vec<(Vertex, Normal)>)
    requires
        own@.wf(),
        other@.wf(),
        i < own@.points.len(),
    ensures
        steps@ == candidates(own@, other@, i as int),
{
    let mut steps: Vec<(Vertex, Normal)> = Vec::new();
    let at: usize = find_position(&other.points, own.points[i]);
    let m: usize = other.points.len();
    if at < m && m >= 2 {
        let back: usize = if at == 0 {
            m - 2
        } else {
            at - 1
        };
        let on: usize = if at == m - 1 {
            1
        } else {
            at + 1
        };
        steps.push((other.points[back], other.normals[back]));
        let normal: Normal = if at < other.normals.len() {
            other.normals[at]
        } else {
            other.normals[0]
        };
        steps.push((other.points[on], normal));
    }
    let n: usize = own.points.len();
    if n >= 2 {
        let on: usize = if i == n - 1 {
            1
        } else {
            i + 1
        };
        let normal: Normal = if i < own.normals.len() {
            own.normals[i]
        } else {
            own.normals[0]
        };
        steps.push((own.points[on], normal));
    }
    assert(steps@ =~= candidates(own@, other@, i as int));
    steps
}

/// The graph of next steps of two polygons: see [`multi_graph`].
pub fn build_multi_graph(v1: &Polygon, v2: &Polygon) -> (graph: Vec<Vec<(Vertex, Normal)>>)
    requires
        v1@.wf(),
        v2@.wf(),
    ensures
        rows(graph@) == multi_graph(v1@, v2@),
{
    let mut graph: Vec<Vec<(Vertex, Normal)>> = Vec::new();
    let mut i: usize = 0;
    while i < v1.points.len()
        invariant
            i <= v1.points.len(),
            v1@.wf(),
            v2@.wf(),
            graph@.len() == i,
            forall|k: int| 0 <= k < i ==> (#[trigger] graph@[k])@ == candidates(v1@, v2@, k),
        decreases v1.points.len() - i,
    {
        graph.push(next_steps(v1, v2, i));
        i += 1;
    }
    let mut j: usize = 0;
    while j < v2.points.len()
        invariant
            j <= v2.points.len(),
            v1@.wf(),
            v2@.wf(),
            graph@.len() == v1@.points.len() + j,
            forall|k: int|
                0 <= k < v1@.points.len() ==> (#[trigger] graph@[k])@ == candidates(v1@, v2@, k),
            forall|k: int|
                v1@.points.len() <= k < v1@.points.len() + j ==> (#[trigger] graph@[k])@
                    == candidates(v2@, v1@, k - v1@.points.len()),
        decreases v2.points.len() - j,
    {
        graph.push(next_steps(v2, v1, j));
        j += 1;
    }
    assert(rows(graph@) =~= multi_graph(v1@, v2@));
    graph
}

} // verus!
