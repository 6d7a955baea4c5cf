//! Boundary tracing: the outer boundary of two polygons that cross is walked
//! from its lowest point, at each branch by the turn furthest to the outside:
//! to the left along polygons drawn clockwise, to the right along polygons
//! drawn counter-clockwise.

use crate::crossing::{
    edge_crossing, insert_crossings, lemma_insert_nothing, no_crossing, with_crossings, wrap_next,
};
use crate::geometry::{cross, dot, mul_wide, Normal, Vertex};
use crate::graph::{
    build_multi_graph, find_position, is_edge, lemma_candidates_edges, lemma_position,
    lemma_position_concat, multi_graph, position, prev_index, rows,
};
use crate::polygons::{intersection, paths, AbstractPolygon, Path, Polygon};
use vstd::prelude::*;

verus! {

/// Why the union of two polygons has no boundary.
#[derive(Clone, Copy, Debug, PartialEq, Eq, Structural)]
pub enum UnionError {
    /// The walk reached a point from which no step leads on.
    UnresolvedTraceBranch,
    /// The walk took as many steps as the two polygons have points and did
    /// not come back to where it started.
    TraceNotClosed,
    /// One polygon is drawn clockwise and the other counter-clockwise, so
    /// that no walk along both can keep the outside on one hand.
    OpposedDirections,
}

/// The sector of the turn from one direction into another, given their
/// cross product `c` and their dot product `d`: 0 for a turn to the right,
/// 1 for straight on (and for a step of no length), 2 for a turn to the
/// left, 3 for a turn right round.
pub open spec fn turn_rank(c: int, d: int) -> int {
    if c < 0 {
        0
    } else if c > 0 {
        2
    } else if d < 0 {
        3
    } else {
        1
    }
}

/// The sector of the turn that a walk from `prev` to `cur` takes when it
/// goes on to `to`.
pub open spec fn turn_to(prev: Vertex, cur: Vertex, to: Vertex) -> int {
    turn_rank(
        cross(cur.x - prev.x, cur.y - prev.y, to.x - cur.x, to.y - cur.y),
        dot(cur.x - prev.x, cur.y - prev.y, to.x - cur.x, to.y - cur.y),
    )
}

/// Whether a walk from `prev` to `cur` turns further to the left when it
/// goes on to `v` than when it goes on to `u`: the signed angle between the
/// direction it came in and the direction it leaves in is larger for `v`.
/// Turns of different sectors are ordered by their sector; two turns to the
/// same side by the cross product of the two directions out.
pub open spec fn turns_left_of(prev: Vertex, cur: Vertex, u: Vertex, v: Vertex) -> bool {
    let ru = turn_to(prev, cur, u);
    let rv = turn_to(prev, cur, v);
    rv > ru || (rv == ru && (ru == 0 || ru == 2) && cross(
        u.x - cur.x,
        u.y - cur.y,
        v.x - cur.x,
        v.y - cur.y,
    ) > 0)
}

/// Whether a walk from `prev` to `cur` turns further to the right when it
/// goes on to `v` than when it goes on to `u`: [`turns_left_of`] as a
/// mirror shows it. A turn right round is the furthest turn to either side.
pub open spec fn turns_right_of(prev: Vertex, cur: Vertex, u: Vertex, v: Vertex) -> bool {
    let ru = turn_rank(
        -cross(cur.x - prev.x, cur.y - prev.y, u.x - cur.x, u.y - cur.y),
        dot(cur.x - prev.x, cur.y - prev.y, u.x - cur.x, u.y - cur.y),
    );
    let rv = turn_rank(
        -cross(cur.x - prev.x, cur.y - prev.y, v.x - cur.x, v.y - cur.y),
        dot(cur.x - prev.x, cur.y - prev.y, v.x - cur.x, v.y - cur.y),
    );
    rv > ru || (rv == ru && (ru == 0 || ru == 2) && cross(
        u.x - cur.x,
        u.y - cur.y,
        v.x - cur.x,
        v.y - cur.y,
    ) < 0)
}

/// Whether the step to `v` turns further to the outside than the step to
/// `u`: further to the left in a walk along polygons that are drawn
/// clockwise, which have their outside on the left, and further to the
/// right along polygons that are drawn counter-clockwise.
pub open spec fn turns_further(
    prev: Vertex,
    cur: Vertex,
    u: Vertex,
    v: Vertex,
    clockwise: bool,
) -> bool {
    if clockwise {
        turns_left_of(prev, cur, u, v)
    } else {
        turns_right_of(prev, cur, u, v)
    }
}

/// Twice the area that the first `k` edges of a run of points sweep as seen
/// from the origin: above zero where they run counter-clockwise round it,
/// `y` pointing up.
pub open spec fn swept(points: Seq<Vertex>, k: int) -> int
    decreases k,
{
    if k <= 0 {
        0
    } else {
        swept(points, k - 1) + (points[k - 1].x * points[k].y - points[k].x * points[k - 1].y)
    }
}

/// Twice the area that a closed polygon encloses: above zero where it is
/// drawn counter-clockwise, below zero where it is drawn clockwise.
pub open spec fn twice_area(p: Path<Vertex>) -> int {
    swept(p.points, p.points.len() - 1)
}

/// Whether one of the two polygons is drawn clockwise and the other
/// counter-clockwise.
pub open spec fn opposed(a: Path<Vertex>, b: Path<Vertex>) -> bool {
    (twice_area(a) < 0 && twice_area(b) > 0) || (twice_area(a) > 0 && twice_area(b) < 0)
}

/// The index of the step that a walk from `prev` to `cur` takes, of the
/// first `k` of `steps`, or -1 if it can take none of them. A step back to
/// `prev` is never taken, nor a step of no length, which leads to `cur`
/// itself. Of the others the one that turns furthest to the outside is
/// taken, see [`turns_further`], and of several such the first.
pub open spec fn best_step(
    steps: Seq<(Vertex, Normal)>,
    prev: Vertex,
    cur: Vertex,
    k: int,
    clockwise: bool,
) -> int
    decreases k,
{
    if k <= 0 {
        -1
    } else {
        let before = best_step(steps, prev, cur, k - 1, clockwise);
        if steps[k - 1].0 == prev || steps[k - 1].0 == cur {
            before
        } else if before < 0 {
            k - 1
        } else if turns_further(prev, cur, steps[before].0, steps[k - 1].0, clockwise) {
            k - 1
        } else {
            before
        }
    }
}

/// `p` comes before `q` when the points are ordered by `x` and then by `y`.
pub open spec fn less(p: Vertex, q: Vertex) -> bool {
    p.x < q.x || (p.x == q.x && p.y < q.y)
}

/// The index of the least of the first `k` points, and of several such the
/// first.
pub open spec fn lowest(points: Seq<Vertex>, k: int) -> int
    decreases k,
{
    if k <= 1 {
        0
    } else {
        let before = lowest(points, k - 1);
        if less(points[k - 1], points[before]) {
            k - 1
        } else {
            before
        }
    }
}

/// The walk `traced` continued by the step to `next`: the normal of the
/// step stands beside the point that the step leaves and beside `next`.
pub open spec fn extended(traced: Path<Vertex>, next: (Vertex, Normal)) -> Path<Vertex> {
    Path {
        points: traced.points.push(next.0),
        normals: traced.normals.drop_last().push(next.1).push(next.1),
    }
}

/// The walk along the boundaries of `a` and `b` that has come over `prev`
/// to the last point of `traced`, continued until it reaches `start`.
///
/// The next steps from a point are those that [`multi_graph`] lists at the
/// first place where `a` or else `b` holds the point; [`best_step`] picks
/// among them. The walk fails where no step can be taken, and where it has
/// not reached `start` after `fuel` steps.
pub open spec fn trace_from(
    a: Path<Vertex>,
    b: Path<Vertex>,
    start: Vertex,
    prev: Vertex,
    traced: Path<Vertex>,
    fuel: nat,
    clockwise: bool,
) -> Result<Path<Vertex>, UnionError>
    decreases fuel,
{
    let cur = traced.points.last();
    let at = position(a.points + b.points, cur);
    let steps = if at < a.points.len() + b.points.len() {
        multi_graph(a, b)[at]
    } else {
        Seq::empty()
    };
    let taken = best_step(steps, prev, cur, steps.len() as int, clockwise);
    if fuel == 0 {
        Err(UnionError::TraceNotClosed)
    } else if taken < 0 {
        Err(UnionError::UnresolvedTraceBranch)
    } else if steps[taken].0 == start {
        Ok(extended(traced, steps[taken]))
    } else {
        trace_from(a, b, start, cur, extended(traced, steps[taken]), (fuel - 1) as nat, clockwise)
    }
}

/// The outer boundary of `a` and `b`, walked from the least of all their
/// points, as if the walk had come to it along the polygon that holds it.
/// The walk may take as many steps as the two polygons have points. The
/// boundary has a normal beside each point: that of the edge which leaves
/// the point, and beside the last point that of the last edge.
pub open spec fn boundary(a: Path<Vertex>, b: Path<Vertex>, clockwise: bool) -> Result<
    Path<Vertex>,
    UnionError,
> {
    let all = a.points + b.points;
    let s = lowest(all, all.len() as int);
    let own = if s < a.points.len() {
        a
    } else {
        b
    };
    let i = if s < a.points.len() {
        s
    } else {
        s - a.points.len()
    };
    let prev = if own.points.len() >= 2 {
        own.points[prev_index(i, own.points.len() as int)]
    } else {
        all[s]
    };
    trace_from(a, b, all[s], prev, first_point(all[s]), all.len(), clockwise)
}

/// The walk that stands at its first point and has taken no step.
pub open spec fn first_point(start: Vertex) -> Path<Vertex> {
    Path { points: seq![start], normals: seq![Normal { x: 0, y: 0 }] }
}

/// Whether `p` holds the point `v`.
pub open spec fn holds(p: Path<Vertex>, v: Vertex) -> bool {
    p.points.contains(v)
}

/// Whether `b` holds two different points of `a`.
pub open spec fn meet_twice(a: Path<Vertex>, b: Path<Vertex>) -> bool {
    exists|i: int, j: int|
        #![trigger a.points[i], a.points[j]]
        0 <= i < a.points.len() && 0 <= j < a.points.len() && a.points[i] != a.points[j] && holds(
            b,
            a.points[i],
        ) && holds(b, a.points[j])
}

/// The boundary `p`, which has a normal beside each point, with its
/// normals in the form in which `like` holds its normals: where that is one
/// normal for each edge, the normal beside the last point is dropped.
pub open spec fn in_form_of(p: Path<Vertex>, like: Path<Vertex>) -> Path<Vertex> {
    if like.per_point() {
        p
    } else {
        Path { points: p.points, normals: p.normals.drop_last() }
    }
}

/// The union of two polygons.
///
/// Every crossing of their edges that [`with_crossings`] finds is put into
/// both. Where the two then share fewer than two points, they do not
/// overlap, and the union is the two of them. Else it is their one outer
/// [`boundary`], walked in the direction in which both are drawn, with its
/// normals in the form in which the first polygon holds its normals; there
/// is none where the two are drawn in opposed directions.
pub open spec fn union_of(a: Path<Vertex>, b: Path<Vertex>) -> Result<
    Seq<Path<Vertex>>,
    UnionError,
> {
    let w = with_crossings(a, b);
    if !meet_twice(w.0, w.1) {
        Ok(seq![w.0, w.1])
    } else if opposed(w.0, w.1) {
        Err(UnionError::OpposedDirections)
    } else {
        match boundary(w.0, w.1, twice_area(w.0) <= 0 && twice_area(w.1) <= 0) {
            Ok(p) => Ok(seq![in_form_of(p, a)]),
            Err(e) => Err(e),
        }
    }
}

/// A walk that comes back to its start is a closed polyline with a normal
/// beside each of its points, and longer than it was.
pub proof fn lemma_trace_closed(
    a: Path<Vertex>,
    b: Path<Vertex>,
    start: Vertex,
    prev: Vertex,
    traced: Path<Vertex>,
    fuel: nat,
    clockwise: bool,
)
    requires
        traced.per_point(),
        traced.points.len() > 0,
        traced.points.first() == start,
    ensures
        trace_from(a, b, start, prev, traced, fuel, clockwise) matches Ok(p) ==> p.per_point()
            && p.closed() && p.points.len() > traced.points.len(),
    decreases fuel,
{
    let cur = traced.points.last();
    let at = position(a.points + b.points, cur);
    let steps = if at < a.points.len() + b.points.len() {
        multi_graph(a, b)[at]
    } else {
        Seq::empty()
    };
    let taken = best_step(steps, prev, cur, steps.len() as int, clockwise);
    if fuel > 0 && taken >= 0 {
        let longer = extended(traced, steps[taken]);
        assert(longer.points.first() == traced.points.first());
        if steps[taken].0 != start {
            lemma_trace_closed(a, b, start, cur, longer, (fuel - 1) as nat, clockwise);
        }
    }
}

/// The outer boundary of two polygons, where there is one, is a closed
/// polyline of at least two points with a normal beside each.
pub proof fn lemma_boundary_closed(a: Path<Vertex>, b: Path<Vertex>, clockwise: bool)
    ensures
        boundary(a, b, clockwise) matches Ok(p) ==> p.per_point() && p.closed() && p.points.len()
            >= 2,
{
    let all = a.points + b.points;
    let s = lowest(all, all.len() as int);
    let own = if s < a.points.len() {
        a
    } else {
        b
    };
    let i = if s < a.points.len() {
        s
    } else {
        s - a.points.len()
    };
    let prev = if own.points.len() >= 2 {
        own.points[prev_index(i, own.points.len() as int)]
    } else {
        all[s]
    };
    lemma_trace_closed(a, b, all[s], prev, first_point(all[s]), all.len(), clockwise);
}

/// A walk that comes back to its start has taken at least three steps: it
/// never steps to the point on which it stands nor back to the point from
/// which it came, so its first three points are three different points.
pub proof fn lemma_trace_long(
    a: Path<Vertex>,
    b: Path<Vertex>,
    start: Vertex,
    prev: Vertex,
    traced: Path<Vertex>,
    fuel: nat,
    clockwise: bool,
)
    requires
        traced.per_point(),
        traced.points.first() == start,
        (traced.points.len() == 1) || (traced.points.len() == 2 && prev == start)
            || traced.points.len() >= 3,
    ensures
        trace_from(a, b, start, prev, traced, fuel, clockwise) matches Ok(p) ==> p.points.len()
            >= 4,
    decreases fuel,
{
    let cur = traced.points.last();
    let at = position(a.points + b.points, cur);
    let steps = if at < a.points.len() + b.points.len() {
        multi_graph(a, b)[at]
    } else {
        Seq::empty()
    };
    let taken = best_step(steps, prev, cur, steps.len() as int, clockwise);
    lemma_best_step(steps, prev, cur, steps.len() as int, clockwise);
    if fuel > 0 && taken >= 0 {
        let longer = extended(traced, steps[taken]);
        assert(longer.points.first() == traced.points.first());
        if steps[taken].0 != start {
            lemma_trace_long(a, b, start, cur, longer, (fuel - 1) as nat, clockwise);
        }
    }
}

/// The outer boundary of two polygons, where there is one, has at least
/// four points, the last of which is the first: it goes through at least
/// three different points.
pub proof fn lemma_boundary_long(a: Path<Vertex>, b: Path<Vertex>, clockwise: bool)
    ensures
        boundary(a, b, clockwise) matches Ok(p) ==> p.points.len() >= 4,
{
    let all = a.points + b.points;
    let s = lowest(all, all.len() as int);
    let own = if s < a.points.len() {
        a
    } else {
        b
    };
    let i = if s < a.points.len() {
        s
    } else {
        s - a.points.len()
    };
    let prev = if own.points.len() >= 2 {
        own.points[prev_index(i, own.points.len() as int)]
    } else {
        all[s]
    };
    lemma_trace_long(a, b, all[s], prev, first_point(all[s]), all.len(), clockwise);
}

/// Every step of the walk runs along an edge of `a` or of `b`.
pub open spec fn walks_edges(a: Path<Vertex>, b: Path<Vertex>, walk: Seq<Vertex>) -> bool {
    forall|k: int|
        0 <= k < walk.len() - 1 ==> is_edge(a, #[trigger] walk[k], walk[k + 1]) || is_edge(
            b,
            walk[k],
            walk[k + 1],
        )
}

/// A walk that has run along edges of the two polygons so far goes on
/// along their edges.
pub proof fn lemma_trace_edges(
    a: Path<Vertex>,
    b: Path<Vertex>,
    start: Vertex,
    prev: Vertex,
    traced: Path<Vertex>,
    fuel: nat,
    clockwise: bool,
)
    requires
        traced.points.len() > 0,
        walks_edges(a, b, traced.points),
    ensures
        trace_from(a, b, start, prev, traced, fuel, clockwise) matches Ok(p) ==> walks_edges(
            a,
            b,
            p.points,
        ),
    decreases fuel,
{
    let cur = traced.points.last();
    let all = a.points + b.points;
    let at = position(all, cur);
    let steps = if at < a.points.len() + b.points.len() {
        multi_graph(a, b)[at]
    } else {
        Seq::empty()
    };
    let taken = best_step(steps, prev, cur, steps.len() as int, clockwise);
    lemma_best_step(steps, prev, cur, steps.len() as int, clockwise);
    if fuel > 0 && taken >= 0 {
        let longer = extended(traced, steps[taken]);
        lemma_position(all, cur);
        assert(all[at] == cur);
        if at < a.points.len() {
            lemma_candidates_edges(a, b, at, taken);
        } else {
            lemma_candidates_edges(b, a, at - a.points.len(), taken);
        }
        assert forall|k: int| 0 <= k < longer.points.len() - 1 implies is_edge(
            a,
            #[trigger] longer.points[k],
            longer.points[k + 1],
        ) || is_edge(b, longer.points[k], longer.points[k + 1]) by {
            if k < traced.points.len() - 1 {
                assert(longer.points[k] == traced.points[k]);
                assert(longer.points[k + 1] == traced.points[k + 1]);
            }
        }
        if steps[taken].0 != start {
            lemma_trace_edges(a, b, start, cur, longer, (fuel - 1) as nat, clockwise);
        }
    }
}

/// The step that is taken is one of the steps on offer.
pub proof fn lemma_best_step(
    steps: Seq<(Vertex, Normal)>,
    prev: Vertex,
    cur: Vertex,
    k: int,
    clockwise: bool,
)
    requires
        0 <= k <= steps.len(),
    ensures
        -1 <= best_step(steps, prev, cur, k, clockwise) < k,
        best_step(steps, prev, cur, k, clockwise) >= 0 ==> ({
            let to = steps[best_step(steps, prev, cur, k, clockwise)].0;
            to != prev && to != cur
        }),
    decreases k,
{
    if k > 0 {
        lemma_best_step(steps, prev, cur, k - 1, clockwise);
    }
}

/// The outer boundary of two polygons starts at the least of their points
/// and runs along their edges only.
pub proof fn lemma_boundary_edges(a: Path<Vertex>, b: Path<Vertex>, clockwise: bool)
    requires
        a.points.len() + b.points.len() > 0,
    ensures
        boundary(a, b, clockwise) matches Ok(p) ==> walks_edges(a, b, p.points),
        boundary(a, b, clockwise) matches Ok(p) ==> ({
            let all = a.points + b.points;
            p.points.first() == all[lowest(all, all.len() as int)]
        }),
{
    let all = a.points + b.points;
    let s = lowest(all, all.len() as int);
    let own = if s < a.points.len() {
        a
    } else {
        b
    };
    let i = if s < a.points.len() {
        s
    } else {
        s - a.points.len()
    };
    let prev = if own.points.len() >= 2 {
        own.points[prev_index(i, own.points.len() as int)]
    } else {
        all[s]
    };
    let first = first_point(all[s]);
    lemma_trace_edges(a, b, all[s], prev, first, all.len(), clockwise);
    lemma_trace_first(a, b, all[s], prev, first, all.len(), clockwise);
}

/// A walk keeps its first point.
pub proof fn lemma_trace_first(
    a: Path<Vertex>,
    b: Path<Vertex>,
    start: Vertex,
    prev: Vertex,
    traced: Path<Vertex>,
    fuel: nat,
    clockwise: bool,
)
    requires
        traced.points.len() > 0,
    ensures
        trace_from(a, b, start, prev, traced, fuel, clockwise) matches Ok(p) ==> p.points.first()
            == traced.points.first(),
    decreases fuel,
{
    let cur = traced.points.last();
    let at = position(a.points + b.points, cur);
    let steps = if at < a.points.len() + b.points.len() {
        multi_graph(a, b)[at]
    } else {
        Seq::empty()
    };
    let taken = best_step(steps, prev, cur, steps.len() as int, clockwise);
    if fuel > 0 && taken >= 0 && steps[taken].0 != start {
        let longer = extended(traced, steps[taken]);
        lemma_trace_first(a, b, start, cur, longer, (fuel - 1) as nat, clockwise);
    }
}

/// The union of two polygons of which no edge meets an edge of the other,
/// and which share fewer than two points, is the two of them as they are.
pub proof fn lemma_union_apart(a: Path<Vertex>, b: Path<Vertex>)
    requires
        no_crossing(a, b),
        !meet_twice(a, b),
    ensures
        union_of(a, b) == Ok::<Seq<Path<Vertex>>, UnionError>(seq![a, b]),
{
    lemma_insert_nothing(a, b, 0, 0);
}

/// Whether point `i` of the closed polygon `p` is a corner: the edge that
/// reaches it and the edge that leaves it are not parallel.
pub open spec fn is_corner(p: Path<Vertex>, i: int) -> bool {
    let before = p.points[prev_index(i, p.points.len() as int)];
    let at = p.points[i];
    let after = p.points[i + 1];
    cross(at.x - before.x, at.y - before.y, after.x - at.x, after.y - at.y) != 0
}

/// A closed polygon of which every point is a corner. So is every square.
pub open spec fn cornered(p: Path<Vertex>) -> bool {
    &&& p.points.len() >= 2
    &&& p.closed()
    &&& forall|i: int| 0 <= i < p.points.len() - 1 ==> #[trigger] is_corner(p, i)
}

/// A direction that is parallel to two directions which are not parallel to
/// each other has no length.
proof fn lemma_parallel_to_both(ux: int, uy: int, vx: int, vy: int, wx: int, wy: int)
    requires
        cross(ux, uy, vx, vy) != 0,
        cross(ux, uy, wx, wy) == 0,
        cross(vx, vy, wx, wy) == 0,
    ensures
        wx == 0 && wy == 0,
{
    let c = cross(ux, uy, vx, vy);
    let a = ux * wy;
    let b = uy * wx;
    let e = vx * wy;
    let f = vy * wx;
    assert(vx * (a - b) == vx * a - vx * b) by (nonlinear_arith);
    assert(ux * (e - f) == ux * e - ux * f) by (nonlinear_arith);
    assert(vy * (a - b) == vy * a - vy * b) by (nonlinear_arith);
    assert(uy * (e - f) == uy * e - uy * f) by (nonlinear_arith);
    assert(vx * a == ux * e) by (nonlinear_arith)
        requires
            a == ux * wy,
            e == vx * wy,
    ;
    assert(vy * b == uy * f) by (nonlinear_arith)
        requires
            b == uy * wx,
            f == vy * wx,
    ;
    assert(ux * f - vx * b == wx * c) by (nonlinear_arith)
        requires
            f == vy * wx,
            b == uy * wx,
            c == ux * vy - uy * vx,
    ;
    assert(uy * e - vy * a == -(wy * c)) by (nonlinear_arith)
        requires
            e == vx * wy,
            a == ux * wy,
            c == ux * vy - uy * vx,
    ;
    assert(wx * c == 0);
    assert(wy * c == 0);
    assert(wx == 0) by (nonlinear_arith)
        requires
            wx * c == 0,
            c != 0,
    ;
    assert(wy == 0) by (nonlinear_arith)
        requires
            wy * c == 0,
            c != 0,
    ;
}

/// Two segments that leave one point meet there, unless they are parallel.
proof fn lemma_meet_at_start(v: Vertex, p: Vertex, q: Vertex)
    requires
        cross(p.x - v.x, p.y - v.y, q.x - v.x, q.y - v.y) != 0,
    ensures
        intersection(v, p, v, q) is Some,
{
    let s1x = p.x - v.x;
    let s1y = p.y - v.y;
    let s2x = q.x - v.x;
    let s2y = q.y - v.y;
    assert(s1x * 0 - s1y * 0 == 0 && s2x * 0 - s2y * 0 == 0) by (nonlinear_arith);
}

/// A segment that ends where another starts meets it there, unless they
/// are parallel.
proof fn lemma_meet_at_end(p: Vertex, v: Vertex, q: Vertex)
    requires
        cross(v.x - p.x, v.y - p.y, q.x - v.x, q.y - v.y) != 0,
    ensures
        intersection(p, v, v, q) is Some,
{
    let s1x = v.x - p.x;
    let s1y = v.y - p.y;
    let s2x = q.x - v.x;
    let s2y = q.y - v.y;
    let ox = p.x - v.x;
    let oy = p.y - v.y;
    let d = s1x * s2y - s2x * s1y;
    assert(s1x * oy - s1y * ox == 0) by (nonlinear_arith)
        requires
            ox == -s1x,
            oy == -s1y,
    ;
    assert(s2x * oy - s2y * ox == d) by (nonlinear_arith)
        requires
            ox == -s1x,
            oy == -s1y,
            d == s1x * s2y - s2x * s1y,
    ;
}

/// Two cornered polygons of which no edge meets an edge of the other share
/// no point.
pub proof fn lemma_apart_share_nothing(a: Path<Vertex>, b: Path<Vertex>, i: int, j: int)
    requires
        cornered(a),
        cornered(b),
        no_crossing(a, b),
        0 <= i < a.points.len(),
        0 <= j < b.points.len(),
    ensures
        a.points[i] != b.points[j],
{
    let n = a.points.len() as int;
    let m = b.points.len() as int;
    // the last point of a closed polygon is its first
    let i = if i == n - 1 {
        0
    } else {
        i
    };
    let j = if j == m - 1 {
        0
    } else {
        j
    };
    let v = a.points[i];
    if v == b.points[j] {
        let from = prev_index(i, n);
        assert(is_corner(a, i));
        assert(is_corner(b, j));
        let before = a.points[from];
        let after = a.points[i + 1];
        let on = b.points[j + 1];
        assert(a.points[wrap_next(from, n)] == v);
        assert(edge_crossing(a, from, b, j) is None);
        assert(edge_crossing(a, i, b, j) is None);
        if cross(v.x - before.x, v.y - before.y, on.x - v.x, on.y - v.y) != 0 {
            lemma_meet_at_end(before, v, on);
        }
        if cross(after.x - v.x, after.y - v.y, on.x - v.x, on.y - v.y) != 0 {
            lemma_meet_at_start(v, after, on);
        }
        lemma_parallel_to_both(
            v.x - before.x,
            v.y - before.y,
            after.x - v.x,
            after.y - v.y,
            on.x - v.x,
            on.y - v.y,
        );
        // an edge of no length makes no corner
        let back = b.points[prev_index(j, m)];
        assert(cross(v.x - back.x, v.y - back.y, 0, 0) == 0) by (nonlinear_arith);
    }
}

/// The union of two cornered polygons, such as two squares, of which no
/// edge meets an edge of the other is the two of them as they are.
pub proof fn lemma_union_of_polygons_apart(a: Path<Vertex>, b: Path<Vertex>)
    requires
        cornered(a),
        cornered(b),
        no_crossing(a, b),
    ensures
        union_of(a, b) == Ok::<Seq<Path<Vertex>>, UnionError>(seq![a, b]),
{
    assert forall|i: int| 0 <= i < a.points.len() implies !holds(b, #[trigger] a.points[i]) by {
        if holds(b, a.points[i]) {
            let j = choose|j: int| 0 <= j < b.points.len() && b.points[j] == a.points[i];
            lemma_apart_share_nothing(a, b, i, j);
        }
    }
    lemma_union_apart(a, b);
}

/// The sector of a turn: see [`turn_to`].
fn turn_sector(prev: Vertex, cur: Vertex, to: Vertex) -> (r: u8)
    ensures
        r == turn_to(prev, cur, to),
{
    let ix: i64 = cur.x as i64 - prev.x as i64;
    let iy: i64 = cur.y as i64 - prev.y as i64;
    let ox: i64 = to.x as i64 - cur.x as i64;
    let oy: i64 = to.y as i64 - cur.y as i64;
    let c: i128 = mul_wide(ix, oy) - mul_wide(iy, ox);
    let d: i128 = mul_wide(ix, ox) + mul_wide(iy, oy);
    if c < 0 {
        0
    } else if c > 0 {
        2
    } else if d < 0 {
        3
    } else {
        1
    }
}

/// Whether the step to `v` turns further to the left than the step to `u`:
/// see [`turns_left_of`].
pub fn turns_further_left(prev: Vertex, cur: Vertex, u: Vertex, v: Vertex) -> (r: bool)
    ensures
        r == turns_left_of(prev, cur, u, v),
{
    let ru: u8 = turn_sector(prev, cur, u);
    let rv: u8 = turn_sector(prev, cur, v);
    if rv != ru {
        return rv > ru;
    }
    if ru == 1 || ru == 3 {
        return false;
    }
    let ux: i64 = u.x as i64 - cur.x as i64;
    let uy: i64 = u.y as i64 - cur.y as i64;
    let vx: i64 = v.x as i64 - cur.x as i64;
    let vy: i64 = v.y as i64 - cur.y as i64;
    mul_wide(ux, vy) - mul_wide(uy, vx) > 0
}

/// Whether the step to `v` turns further to the right than the step to `u`:
/// see [`turns_right_of`].
pub fn turns_further_right(prev: Vertex, cur: Vertex, u: Vertex, v: Vertex) -> (r: bool)
    ensures
        r == turns_right_of(prev, cur, u, v),
{
    let su: u8 = turn_sector(prev, cur, u);
    let sv: u8 = turn_sector(prev, cur, v);
    // the sectors as a mirror shows them: left and right change places
    let ru: u8 = if su == 0 {
        2
    } else if su == 2 {
        0
    } else {
        su
    };
    let rv: u8 = if sv == 0 {
        2
    } else if sv == 2 {
        0
    } else {
        sv
    };
    if rv != ru {
        return rv > ru;
    }
    if ru == 1 || ru == 3 {
        return false;
    }
    let ux: i64 = u.x as i64 - cur.x as i64;
    let uy: i64 = u.y as i64 - cur.y as i64;
    let vx: i64 = v.x as i64 - cur.x as i64;
    let vy: i64 = v.y as i64 - cur.y as i64;
    mul_wide(ux, vy) - mul_wide(uy, vx) < 0
}

/// Twice the area that a polygon encloses: see [`twice_area`].
pub fn signed_area(p: &Polygon) -> (r: i128)
    ensures
        r == twice_area(p@),
{
    let n: usize = p.points.len();
    let mut sum: i128 = 0;
    let mut k: usize = 1;
    while k < n
        invariant
            1 <= k,
            n == p.points.len(),
            k <= n || n == 0,
            n > 0 ==> sum == swept(p@.points, k - 1),
            n == 0 ==> sum == 0,
            -(k - 1) * 0x8000_0000_0000_0000 <= sum <= (k - 1) * 0x8000_0000_0000_0000,
        decreases n - k,
    {
        let a: Vertex = p.points[k - 1];
        let b: Vertex = p.points[k];
        assert(-0x4000_0000_0000_0000 <= a.x * b.y <= 0x4000_0000_0000_0000
            && -0x4000_0000_0000_0000 <= b.x * a.y <= 0x4000_0000_0000_0000) by (nonlinear_arith)
            requires
                -0x8000_0000 <= a.x <= 0x8000_0000,
                -0x8000_0000 <= a.y <= 0x8000_0000,
                -0x8000_0000 <= b.x <= 0x8000_0000,
                -0x8000_0000 <= b.y <= 0x8000_0000,
        ;
        let term: i128 = mul_wide(a.x as i64, b.y as i64) - mul_wide(b.x as i64, a.y as i64);
        sum = sum + term;
        k += 1;
    }
    sum
}

/// The step that a walk from `prev` to `cur` takes among `steps`, if it can
/// take any: see [`best_step`].
pub fn choose_step(steps: &Vec<(Vertex, Normal)>, prev: Vertex, cur: Vertex, clockwise: bool) -> (r:
    Option<usize>)
    ensures
        match r {
            Some(i) => i == best_step(steps@, prev, cur, steps@.len() as int, clockwise) && i
                < steps@.len(),
            None => best_step(steps@, prev, cur, steps@.len() as int, clockwise) < 0,
        },
{
    let mut best: Option<usize> = None;
    let mut k: usize = 0;
    while k < steps.len()
        invariant
            k <= steps.len(),
            match best {
                Some(i) => i == best_step(steps@, prev, cur, k as int, clockwise) && i < k,
                None => best_step(steps@, prev, cur, k as int, clockwise) < 0,
            },
        decreases steps.len() - k,
    {
        let to: Vertex = steps[k].0;
        if to != prev && to != cur {
            match best {
                None => {
                    best = Some(k);
                },
                Some(i) => {
                    let further: bool = if clockwise {
                        turns_further_left(prev, cur, steps[i].0, to)
                    } else {
                        turns_further_right(prev, cur, steps[i].0, to)
                    };
                    if further {
                        best = Some(k);
                    }
                },
            }
        }
        k += 1;
    }
    best
}

/// Whether `p` comes before `q`: see [`less`].
fn comes_before(p: Vertex, q: Vertex) -> (r: bool)
    ensures
        r == less(p, q),
{
    p.x < q.x || (p.x == q.x && p.y < q.y)
}

/// The point at place `k` of the points of `a` followed by those of `b`.
fn point_at(a: &Polygon, b: &Polygon, k: usize) -> (p: Vertex)
    requires
        k < a@.points.len() + b@.points.len(),
    ensures
        p == (a@.points + b@.points)[k as int],
{
    if k < a.points.len() {
        a.points[k]
    } else {
        b.points[k - a.points.len()]
    }
}

/// The place of the least of all points of `a` and `b`: see [`lowest`].
fn lowest_point(a: &Polygon, b: &Polygon, total: usize) -> (s: usize)
    requires
        total == a@.points.len() + b@.points.len(),
        total > 0,
    ensures
        s == lowest(a@.points + b@.points, total as int),
        s < total,
{
    let mut s: usize = 0;
    let mut k: usize = 1;
    while k < total
        invariant
            1 <= k <= total,
            total == a@.points.len() + b@.points.len(),
            s == lowest(a@.points + b@.points, k as int),
            s < k,
        decreases total - k,
    {
        if comes_before(point_at(a, b, k), point_at(a, b, s)) {
            s = k;
        }
        k += 1;
    }
    s
}

/// The first place at which `a` or else `b` holds `v`.
fn place_of(a: &Polygon, b: &Polygon, v: Vertex, total: usize) -> (at: usize)
    requires
        total == a@.points.len() + b@.points.len(),
    ensures
        at == position(a@.points + b@.points, v),
        at <= total,
{
    proof {
        lemma_position_concat(a@.points, b@.points, v);
    }
    let first: usize = find_position(&a.points, v);
    if first < a.points.len() {
        first
    } else {
        a.points.len() + find_position(&b.points, v)
    }
}

/// Whether `b` holds two different points of `a`: see [`meet_twice`].
pub fn share_two_points(a: &Polygon, b: &Polygon) -> (r: bool)
    ensures
        r == meet_twice(a@, b@),
{
    let n: usize = a.points.len();
    let m: usize = b.points.len();
    let mut f: usize = 0;
    while f < n && find_position(&b.points, a.points[f]) >= m
        invariant
            f <= n,
            n == a@.points.len(),
            m == b@.points.len(),
            forall|k: int| 0 <= k < f ==> !holds(b@, #[trigger] a@.points[k]),
        decreases n - f,
    {
        f += 1;
    }
    if f >= n {
        return false;
    }
    let first: Vertex = a.points[f];
    let mut g: usize = f + 1;
    while g < n
        invariant
            f < g <= n,
            n == a@.points.len(),
            m == b@.points.len(),
            first == a@.points[f as int],
            holds(b@, first),
            forall|k: int| 0 <= k < f ==> !holds(b@, #[trigger] a@.points[k]),
            forall|k: int|
                f <= k < g ==> !holds(b@, #[trigger] a@.points[k]) || a@.points[k] == first,
        decreases n - g,
    {
        if a.points[g] != first && find_position(&b.points, a.points[g]) < m {
            assert(a@.points[f as int] != a@.points[g as int] && holds(b@, a@.points[f as int])
                && holds(b@, a@.points[g as int]));
            return true;
        }
        g += 1;
    }
    assert forall|i: int, j: int|
        #![trigger a@.points[i], a@.points[j]]
        0 <= i < a@.points.len() && 0 <= j < a@.points.len() && holds(b@, a@.points[i]) && holds(
            b@,
            a@.points[j],
        ) implies a@.points[i] == a@.points[j] by {
        assert(a@.points[i] == first);
        assert(a@.points[j] == first);
    }
    false
}

/// The outer boundary of two polygons, walked along their graph of next
/// steps: see [`boundary`].
pub fn trace_boundary(
    a: &Polygon,
    b: &Polygon,
    graph: &Vec<Vec<(Vertex, Normal)>>,
    clockwise: bool,
) -> (r: Result<Polygon, UnionError>)
    requires
        a@.wf(),
        b@.wf(),
        a@.points.len() + b@.points.len() > 0,
        rows(graph@) == multi_graph(a@, b@),
    ensures
        match r {
            Ok(p) => boundary(a@, b@, clockwise) == Ok::<Path<Vertex>, UnionError>(p@),
            Err(e) => boundary(a@, b@, clockwise) == Err::<Path<Vertex>, UnionError>(e),
        },
        r matches Ok(p) ==> p@.per_point() && p@.closed() && walks_edges(a@, b@, p@.points),
        r matches Ok(p) ==> p@.points.len() >= 4,
{
    proof {
        lemma_boundary_long(a@, b@, clockwise);
        lemma_boundary_closed(a@, b@, clockwise);
        lemma_boundary_edges(a@, b@, clockwise);
    }
    let total: usize = graph.len();
    assert(rows(graph@).len() == total);
    let s: usize = lowest_point(a, b, total);
    let start: Vertex = point_at(a, b, s);
    let first_normal: Normal = Normal { x: 0, y: 0 };
    let mut prev: Vertex;
    if s < a.points.len() {
        prev = if a.points.len() >= 2 {
            a.points[if s == 0 {
                a.points.len() - 2
            } else {
                s - 1
            }]
        } else {
            start
        };
    } else {
        let i: usize = s - a.points.len();
        prev = if b.points.len() >= 2 {
            b.points[if i == 0 {
                b.points.len() - 2
            } else {
                i - 1
            }]
        } else {
            start
        };
    }
    let mut points: Vec<Vertex> = Vec::new();
    let mut normals: Vec<Normal> = Vec::new();
    points.push(start);
    normals.push(first_normal);
    assert(points@ =~= seq![start]);
    assert(normals@ =~= seq![first_normal]);
    let mut fuel: usize = total;
    while fuel > 0
        invariant
            total == a@.points.len() + b@.points.len(),
            rows(graph@) == multi_graph(a@, b@),
            graph@.len() == total,
            points@.len() > 0,
            normals@.len() > 0,
            boundary(a@, b@, clockwise) matches Ok(p) ==> p.per_point() && p.closed()
                && p.points.len() >= 4 && walks_edges(a@, b@, p.points),
            trace_from(
                a@,
                b@,
                start,
                prev,
                Path { points: points@, normals: normals@ },
                fuel as nat,
                clockwise,
            ) == boundary(a@, b@, clockwise),
        decreases fuel,
    {
        let ghost traced = Path { points: points@, normals: normals@ };
        let cur: Vertex = points[points.len() - 1];
        let at: usize = place_of(a, b, cur, total);
        if at >= total {
            return Err(UnionError::UnresolvedTraceBranch);
        }
        assert(rows(graph@)[at as int] == graph@[at as int]@);
        match choose_step(&graph[at], prev, cur, clockwise) {
            None => {
                return Err(UnionError::UnresolvedTraceBranch);
            },
            Some(taken) => {
                let next: (Vertex, Normal) = graph[at][taken];
                normals.pop();
                normals.push(next.1);
                normals.push(next.1);
                points.push(next.0);
                assert(Path { points: points@, normals: normals@ } == extended(traced, next)) by {
                    assert(points@ =~= extended(traced, next).points);
                    assert(normals@ =~= extended(traced, next).normals);
                }
                if next.0 == start {
                    return Ok(AbstractPolygon { points, normals });
                }
                prev = cur;
                fuel -= 1;
            },
        }
    }
    Err(UnionError::TraceNotClosed)
}

impl Polygon {
    /// The union of this polygon and `other`: see [`union_of`].
    ///
    /// Both are meant to be closed, and drawn in the same direction,
    /// clockwise or counter-clockwise. Where they share fewer than two
    /// points after every crossing has been put into both, the two come
    /// back side by side; else their one outer boundary, in the direction
    /// of the two. No polygon comes back with fewer points than the
    /// shorter of the two had, and a boundary goes through three different
    /// points at least.
    pub fn union(&self, other: Polygon) -> (r: Result<Vec<Polygon>, UnionError>)
        requires
            self@.wf(),
            other@.wf(),
        ensures
            match r {
                Ok(v) => union_of(self@, other@) == Ok::<Seq<Path<Vertex>>, UnionError>(
                    paths(v@),
                ),
                Err(e) => union_of(self@, other@) == Err::<Seq<Path<Vertex>>, UnionError>(e),
            },
            r matches Ok(v) ==> (v@.len() == 1 && v@[0]@.closed() && v@[0]@.points.len() >= 4) || (
            v@.len() == 2 && !meet_twice(v@[0]@, v@[1]@)),
            r matches Ok(v) ==> forall|k: int| 0 <= k < v@.len() ==> (#[trigger] v@[k])@.wf(),
            r matches Ok(v) ==> (self@.same_form(other@) ==> forall|k: int|
                0 <= k < v@.len() ==> (#[trigger] v@[k])@.same_form(self@)),
            r matches Ok(v) ==> (self@.closed() && other@.closed() ==> forall|k: int|
                0 <= k < v@.len() ==> (#[trigger] v@[k])@.closed()),
            r matches Ok(v) ==> (self@.points.len() >= 4 && other@.points.len() >= 4 ==> forall|
                k: int,
            | 0 <= k < v@.len() ==> (#[trigger] v@[k])@.points.len() >= 4),
    {
        let mut v1: Polygon = self.clone();
        let mut v2: Polygon = other;
        insert_crossings(&mut v1, &mut v2);
        if !share_two_points(&v1, &v2) {
            let ghost both = seq![v1@, v2@];
            let mut out: Vec<Polygon> = Vec::new();
            out.push(v1);
            out.push(v2);
            assert(paths(out@) =~= both);
            return Ok(out);
        }
        let area1: i128 = signed_area(&v1);
        let area2: i128 = signed_area(&v2);
        if (area1 < 0 && area2 > 0) || (area1 > 0 && area2 < 0) {
            return Err(UnionError::OpposedDirections);
        }
        let clockwise: bool = area1 <= 0 && area2 <= 0;
        let graph: Vec<Vec<(Vertex, Normal)>> = build_multi_graph(&v1, &v2);
        match trace_boundary(&v1, &v2, &graph, clockwise) {
            Ok(p) => {
                let mut p = p;
                if self.normals.len() != self.points.len() {
                    p.normals.pop();
                }
                let ghost one = seq![p@];
                let mut out: Vec<Polygon> = Vec::new();
                out.push(p);
                assert(paths(out@) =~= one);
                Ok(out)
            },
            Err(e) => Err(e),
        }
    }
}

} // verus!
