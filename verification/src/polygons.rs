//! Polylines and polygons: an ordered run of points with one normal for
//! each, either as coordinates or as indices into a pool of welded points.

use crate::geometry::{
    in_unit_interval, interpolate, lemma_lerp_bounds, lemma_rounded_negated, lerp, mul_wide,
    Normal, Vertex,
};
use vstd::prelude::*;

verus! {

/// The mathematical content of a polyline: its points in drawing order and
/// the normals of its edges. Edge `i` runs from point `i` to point `i + 1`,
/// and normal `i` is its normal.
///
/// The normals come in one of two forms. With one normal for each edge
/// there is one normal fewer than points. With a normal beside each point
/// there are as many normals as points, and the last belongs to no edge of
/// an open polyline.
pub struct Path<T> {
    pub points: Seq<T>,
    pub normals: Seq<Normal>,
}

impl<T> Path<T> {
    /// There is a normal beside each point.
    pub open spec fn per_point(self) -> bool {
        self.normals.len() == self.points.len()
    }

    /// There is a normal for each edge, that is one fewer than points.
    pub open spec fn per_edge(self) -> bool {
        self.normals.len() + 1 == self.points.len()
    }

    /// The normals come in the form that `beside` names: beside each point,
    /// or else one for each edge.
    pub open spec fn in_form(self, beside: bool) -> bool {
        if beside {
            self.per_point()
        } else {
            self.per_edge()
        }
    }

    /// The normals come in one of the two forms.
    pub open spec fn wf(self) -> bool {
        self.per_point() || self.per_edge()
    }

    /// Both polylines hold their normals in the same form.
    pub open spec fn same_form(self, other: Path<T>) -> bool {
        (self.per_point() && other.per_point()) || (self.per_edge() && other.per_edge())
    }

    /// The first and the last point are the same.
    pub open spec fn closed(self) -> bool {
        self.points.len() > 0 && self.points.first() == self.points.last()
    }

    /// The same polyline drawn from its other end. Every edge keeps its
    /// normal: the normals of the edges are reversed with the points, and a
    /// normal beside the last point stays last.
    pub open spec fn reversed(self) -> Path<T> {
        Path {
            points: self.points.reverse(),
            normals: if self.per_point() {
                self.normals.drop_last().reverse().push(self.normals.last())
            } else {
                self.normals.reverse()
            },
        }
    }

    /// This polyline continued by `next`, which starts where this one ends:
    /// the shared point is kept once, and the normals of the edges of
    /// `next` follow those of the edges of this one. A normal beside the
    /// last point of this one is dropped.
    pub open spec fn concat(self, next: Path<T>) -> Path<T> {
        Path {
            points: self.points + next.points.drop_first(),
            normals: if self.per_point() {
                self.normals.drop_last() + next.normals
            } else {
                self.normals + next.normals
            },
        }
    }

    /// The polyline with `point` and `normal` put in at position `i`.
    pub open spec fn insert(self, i: int, point: T, normal: Normal) -> Path<T> {
        Path { points: self.points.insert(i, point), normals: self.normals.insert(i, normal) }
    }
}

/// A polyline over points of type `T`.
#[derive(Debug, PartialEq)]
pub struct AbstractPolygon<T> where T: PartialEq + Copy {
    /// list of n points
    pub points: Vec<T>,
    /// list of n normals, one for each line
    pub normals: Vec<Normal>,
}

impl<T> View for AbstractPolygon<T> where T: PartialEq + Copy {
    type V = Path<T>;

    open spec fn view(&self) -> Path<T> {
        Path { points: self.points@, normals: self.normals@ }
    }
}

/// The contents of a run of polylines.
pub open spec fn paths<T: PartialEq + Copy>(v: Seq<AbstractPolygon<T>>) -> Seq<Path<T>> {
    Seq::new(v.len(), |i: int| v[i]@)
}

/// Every polyline holds its normals in the form that `beside` names.
pub open spec fn all_in_form<T>(lines: Seq<Path<T>>, beside: bool) -> bool {
    forall|i: int| 0 <= i < lines.len() ==> (#[trigger] lines[i]).in_form(beside)
}

/// Every polyline holds its normals in one of the two forms, and all of
/// them in the same.
pub open spec fn all_wf<T>(lines: Seq<Path<T>>) -> bool {
    all_in_form(lines, true) || all_in_form(lines, false)
}

/// A copy of a vector of plain values.
pub(crate) fn copy_vec<T: Copy>(v: &Vec<T>) -> (r: Vec<T>)
    ensures
        r@ == v@,
{
    let mut r: Vec<T> = Vec::new();
    let mut i: usize = 0;
    while i < v.len()
        invariant
            i <= v.len(),
            r@ == v@.take(i as int),
        decreases v.len() - i,
    {
        r.push(v[i]);
        i += 1;
    }
    r
}

impl<T> Clone for AbstractPolygon<T> where T: PartialEq + Copy {
    fn clone(&self) -> (r: Self)
        ensures
            r@ == self@,
    {
        AbstractPolygon { points: copy_vec(&self.points), normals: copy_vec(&self.normals) }
    }
}

impl<T> AbstractPolygon<T> where T: PartialEq + Copy {
    /// The number of points.
    pub fn len(&self) -> (n: usize)
        ensures
            n == self@.points.len(),
    {
        self.points.len()
    }

    /// The point at position `i`.
    pub fn get_point(&self, i: usize) -> (p: T)
        requires
            i < self@.points.len(),
        ensures
            p == self@.points[i as int],
    {
        self.points[i]
    }

    /// The normal at position `i`.
    pub fn get_normal(&self, i: usize) -> (n: Normal)
        requires
            i < self@.normals.len(),
        ensures
            n == self@.normals[i as int],
    {
        self.normals[i]
    }

    /// The point at position `i` and the normal beside it.
    pub fn get_pair(&self, i: usize) -> (pair: (T, Normal))
        requires
            i < self@.points.len(),
            i < self@.normals.len(),
        ensures
            pair == (self@.points[i as int], self@.normals[i as int]),
    {
        (self.points[i], self.normals[i])
    }

    /// Puts `point` and `normal` in at position `i`; what stood at `i` or
    /// after it moves one place on.
    pub fn insert_point(&mut self, i: usize, point: T, normal: Normal)
        requires
            i <= old(self)@.points.len(),
            i <= old(self)@.normals.len(),
        ensures
            final(self)@ == old(self)@.insert(i as int, point, normal),
    {
        self.points.insert(i, point);
        self.normals.insert(i, normal);
    }

    /// The points in order, each with the normal beside it, as far as both
    /// lists go.
    pub fn iter(&self) -> (pairs: Vec<(T, Normal)>)
        ensures
            pairs@.len() == if self@.points.len() <= self@.normals.len() {
                self@.points.len()
            } else {
                self@.normals.len()
            },
            forall|i: int|
                0 <= i < pairs@.len() ==> pairs@[i] == (self@.points[i], self@.normals[i]),
    {
        let n: usize = if self.points.len() <= self.normals.len() {
            self.points.len()
        } else {
            self.normals.len()
        };
        let mut pairs: Vec<(T, Normal)> = Vec::new();
        let mut i: usize = 0;
        while i < n
            invariant
                i <= n,
                n <= self.points.len(),
                n <= self.normals.len(),
                pairs@.len() == i,
                forall|k: int| 0 <= k < i ==> pairs@[k] == (self@.points[k], self@.normals[k]),
            decreases n - i,
        {
            pairs.push((self.points[i], self.normals[i]));
            i += 1;
        }
        pairs
    }
}

impl<T> AbstractPolygon<T> where T: PartialEq + Copy {
    /// Whether the normals come in one of the two forms: one beside each
    /// point, or one for each edge.
    pub fn is_well_formed(&self) -> (r: bool)
        ensures
            r == self@.wf(),
    {
        let n: usize = self.points.len();
        self.normals.len() == n || (n > 0 && self.normals.len() == n - 1)
    }

    /// Whether there is a normal beside each point.
    pub fn has_normal_per_point(&self) -> (r: bool)
        ensures
            r == self@.per_point(),
    {
        self.normals.len() == self.points.len()
    }

    /// The same polyline drawn from its other end: see [`Path::reversed`].
    pub fn reversed(&self) -> (r: Self)
        requires
            self@.wf(),
            self@.points.len() > 0,
        ensures
            r@ == self@.reversed(),
            r@.same_form(self@),
    {
        let n: usize = self.points.len();
        let edges: usize = n - 1;
        let mut points: Vec<T> = Vec::new();
        let mut normals: Vec<Normal> = Vec::new();
        let mut i: usize = 0;
        while i < n
            invariant
                i <= n,
                n == self.points.len(),
                points@.len() == i,
                forall|k: int| 0 <= k < i ==> points@[k] == self.points@[n - 1 - k],
            decreases n - i,
        {
            points.push(self.points[n - 1 - i]);
            i += 1;
        }
        let mut j: usize = 0;
        while j < edges
            invariant
                j <= edges,
                edges <= self.normals.len(),
                normals@.len() == j,
                forall|k: int| 0 <= k < j ==> normals@[k] == self.normals@[edges - 1 - k],
            decreases edges - j,
        {
            normals.push(self.normals[edges - 1 - j]);
            j += 1;
        }
        if self.normals.len() == n {
            normals.push(self.normals[n - 1]);
        }
        assert(points@ =~= self@.reversed().points);
        assert(normals@ =~= self@.reversed().normals);
        AbstractPolygon { points, normals }
    }

    /// This polyline continued by `next`: see [`Path::concat`].
    pub fn concat(&self, next: &Self) -> (r: Self)
        requires
            self@.same_form(next@),
            self@.points.len() > 0,
            next@.points.len() > 0,
        ensures
            r@ == self@.concat(next@),
            r@.same_form(self@),
    {
        let mut points: Vec<T> = copy_vec(&self.points);
        let mut normals: Vec<Normal> = copy_vec(&self.normals);
        if self.normals.len() == self.points.len() {
            normals.pop();
        }
        let ghost kept = normals@;
        let mut i: usize = 1;
        while i < next.points.len()
            invariant
                1 <= i <= next.points.len(),
                points@ == self.points@ + next.points@.subrange(1, i as int),
            decreases next.points.len() - i,
        {
            points.push(next.points[i]);
            assert(points@ =~= self.points@ + next.points@.subrange(1, i + 1));
            i += 1;
        }
        let mut j: usize = 0;
        while j < next.normals.len()
            invariant
                j <= next.normals.len(),
                normals@ == kept + next.normals@.take(j as int),
            decreases next.normals.len() - j,
        {
            normals.push(next.normals[j]);
            assert(normals@ =~= kept + next.normals@.take(j + 1));
            j += 1;
        }
        assert(points@ =~= self@.concat(next@).points);
        assert(normals@ =~= self@.concat(next@).normals);
        AbstractPolygon { points, normals }
    }
}

/// A polyline given by the coordinates of its points.
pub type Polygon = AbstractPolygon<Vertex>;

/// A polyline given by the indices of its points in a pool of welded points.
pub type IndexPolygon = AbstractPolygon<usize>;

/// What joining two polylines gives, if they share an end.
///
/// The four ways are tried in this order, and the first that fits is taken:
/// both start at the same point (the first is turned round and the second
/// follows it); both end at the same point (the second is turned round and
/// follows the first); the first ends where the second starts; the first
/// starts where the second ends (the second comes first). The shared point
/// is kept once, and every edge keeps its normal, in either form of the
/// normals.
pub open spec fn join_paths(a: Path<usize>, b: Path<usize>) -> Option<Path<usize>> {
    if a.points.len() == 0 || b.points.len() == 0 {
        None
    } else if a.points.first() == b.points.first() {
        Some(a.reversed().concat(b))
    } else if a.points.last() == b.points.last() {
        Some(a.concat(b.reversed()))
    } else if a.points.last() == b.points.first() {
        Some(a.concat(b))
    } else if a.points.first() == b.points.last() {
        Some(b.concat(a))
    } else {
        None
    }
}

/// A joined polyline has one point fewer than its two parts together, and
/// holds its normals in the form in which the parts hold theirs.
pub proof fn lemma_join_paths_len(a: Path<usize>, b: Path<usize>)
    requires
        a.same_form(b),
    ensures
        join_paths(a, b) matches Some(j) ==> j.same_form(a) && j.points.len() == a.points.len()
            + b.points.len() - 1,
{
}

/// Every index of the polyline lies below `n`.
pub open spec fn below(p: Path<usize>, n: int) -> bool {
    forall|k: int| 0 <= k < p.points.len() ==> (#[trigger] p.points[k]) < n
}

/// Joining brings in no index that neither part holds.
pub proof fn lemma_join_paths_below(a: Path<usize>, b: Path<usize>, n: int)
    requires
        below(a, n),
        below(b, n),
    ensures
        join_paths(a, b) matches Some(j) ==> below(j, n),
{
    if let Some(j) = join_paths(a, b) {
        assert forall|k: int| 0 <= k < j.points.len() implies (#[trigger] j.points[k]) < n by {
            let ra = a.reversed();
            let rb = b.reversed();
            let n = a.points.len();
            let m = b.points.len();
            assert(forall|i: int| 0 <= i < n ==> ra.points[i] == a.points[n - 1 - i]);
            assert(forall|i: int| 0 <= i < m ==> rb.points[i] == b.points[m - 1 - i]);
            if a.points.first() == b.points.first() {
                if k < ra.points.len() {
                    assert(j.points[k] == ra.points[k]);
                } else {
                    assert(j.points[k] == b.points[k - ra.points.len() + 1]);
                }
            } else if a.points.last() == b.points.last() {
                if k < a.points.len() {
                    assert(j.points[k] == a.points[k]);
                } else {
                    assert(j.points[k] == rb.points[k - a.points.len() + 1]);
                }
            } else if a.points.last() == b.points.first() {
                if k < a.points.len() {
                    assert(j.points[k] == a.points[k]);
                } else {
                    assert(j.points[k] == b.points[k - a.points.len() + 1]);
                }
            } else {
                if k < b.points.len() {
                    assert(j.points[k] == b.points[k]);
                } else {
                    assert(j.points[k] == a.points[k - b.points.len() + 1]);
                }
            }
        }
    }
}

impl IndexPolygon {
    /// Whether the first point and the last are the same.
    pub fn is_closed(&self) -> (r: bool)
        ensures
            r == self@.closed(),
    {
        let n: usize = self.points.len();
        n > 0 && self.points[0] == self.points[n - 1]
    }

    /// The coordinates of this polyline's points, looked up in `vertices`.
    pub fn to_polygon(&self, vertices: Vec<Vertex>) -> (r: Polygon)
        requires
            below(self@, vertices@.len() as int),
        ensures
            r@ == resolve(self@, vertices@),
    {
        let mut points: Vec<Vertex> = Vec::new();
        let mut i: usize = 0;
        while i < self.points.len()
            invariant
                i <= self.points.len(),
                below(self@, vertices@.len() as int),
                points@.len() == i,
                forall|k: int| 0 <= k < i ==> points@[k] == vertices@[self@.points[k] as int],
            decreases self.points.len() - i,
        {
            assert(self@.points[i as int] < vertices@.len());
            points.push(vertices[self.points[i]]);
            i += 1;
        }
        assert(points@ =~= resolve(self@, vertices@).points);
        AbstractPolygon { points, normals: copy_vec(&self.normals) }
    }

    /// Joins this polyline with `l2` where they share an end: see
    /// [`join_paths`]. `None` where they share none.
    pub fn join(&self, l2: IndexPolygon) -> (r: Option<IndexPolygon>)
        requires
            self@.same_form(l2@),
        ensures
            r is Some == join_paths(self@, l2@) is Some,
            r matches Some(j) ==> Some(j@) == join_paths(self@, l2@),
            r matches Some(j) ==> j@.same_form(self@) && j@.points.len() == self@.points.len()
                + l2@.points.len() - 1,
    {
        let n: usize = self.points.len();
        let m: usize = l2.points.len();
        if n == 0 || m == 0 {
            None
        } else if self.points[0] == l2.points[0] {
            Some(self.reversed().concat(&l2))
        } else if self.points[n - 1] == l2.points[m - 1] {
            Some(self.concat(&l2.reversed()))
        } else if self.points[n - 1] == l2.points[0] {
            Some(self.concat(&l2))
        } else if self.points[0] == l2.points[m - 1] {
            Some(l2.concat(self))
        } else {
            None
        }
    }
}

/// The polyline of indices `p` with each index replaced by the point that
/// `vertices` holds there.
pub open spec fn resolve(p: Path<usize>, vertices: Seq<Vertex>) -> Path<Vertex> {
    Path {
        points: Seq::new(p.points.len(), |i: int| vertices[p.points[i] as int]),
        normals: p.normals,
    }
}

impl Polygon {
    /// Whether the first point and the last are the same.
    pub fn is_closed(&self) -> (r: bool)
        ensures
            r == self@.closed(),
    {
        let n: usize = self.points.len();
        n > 0 && self.points[0] == self.points[n - 1]
    }
}

/// The point where the segment from `p1` to `p2` meets the segment from `p3`
/// to `p4`, if the two are not parallel and meet within both.
///
/// With `s1 = p2 - p1` and `s2 = p4 - p3`, the denominator `d` is the cross
/// product of `s1` and `s2`. The parameters along the second segment and
/// along the first are `s / d` and `t / d`; the segments meet when both lie
/// between 0 and 1, ends included. The point is `p1 + (t / d) * s1`, each
/// coordinate rounded to the nearest lattice unit. Parallel and collinear
/// segments never meet, even where they overlap.
pub open spec fn intersection(p1: Vertex, p2: Vertex, p3: Vertex, p4: Vertex) -> Option<Vertex> {
    let s1x = p2.x - p1.x;
    let s1y = p2.y - p1.y;
    let s2x = p4.x - p3.x;
    let s2y = p4.y - p3.y;
    let ox = p1.x - p3.x;
    let oy = p1.y - p3.y;
    let d = s1x * s2y - s2x * s1y;
    let s = s1x * oy - s1y * ox;
    let t = s2x * oy - s2y * ox;
    if d != 0 && in_unit_interval(s, d) && in_unit_interval(t, d) {
        Some(
            Vertex {
                x: lerp(p1.x as int, p2.x as int, t, d) as i32,
                y: lerp(p1.y as int, p2.y as int, t, d) as i32,
            },
        )
    } else {
        None
    }
}

/// Where two segments meet, the point lies within the box that the ends
/// of the first segment span.
pub proof fn lemma_intersection_bounds(p1: Vertex, p2: Vertex, p3: Vertex, p4: Vertex)
    ensures
        intersection(p1, p2, p3, p4) matches Some(x) ==> {
            &&& p1.x <= p2.x ==> p1.x <= x.x <= p2.x
            &&& p2.x <= p1.x ==> p2.x <= x.x <= p1.x
            &&& p1.y <= p2.y ==> p1.y <= x.y <= p2.y
            &&& p2.y <= p1.y ==> p2.y <= x.y <= p1.y
        },
{
    let s1x = p2.x - p1.x;
    let s1y = p2.y - p1.y;
    let s2x = p4.x - p3.x;
    let s2y = p4.y - p3.y;
    let ox = p1.x - p3.x;
    let oy = p1.y - p3.y;
    let d = s1x * s2y - s2x * s1y;
    let t = s2x * oy - s2y * ox;
    if intersection(p1, p2, p3, p4) is Some {
        lemma_lerp_bounds(p1.x as int, p2.x as int, t, d);
        lemma_lerp_bounds(p1.y as int, p2.y as int, t, d);
    }
}

/// The two parameters of a meeting name one point: with `d`, `s` and `t`
/// as in [`intersection`], `p1 + (t / d) * s1` is `p3 + (s / d) * s2`, here
/// with the denominator cleared and `o = p1 - p3`.
proof fn lemma_one_point(s1x: int, s1y: int, s2x: int, s2y: int, ox: int, oy: int)
    ensures
        ox * (s1x * s2y - s2x * s1y) + s1x * (s2x * oy - s2y * ox) == s2x * (s1x * oy - s1y * ox),
        oy * (s1x * s2y - s2x * s1y) + s1y * (s2x * oy - s2y * ox) == s2y * (s1x * oy - s1y * ox),
{
    let a = s1x * s2y;
    let b = s2x * s1y;
    let c = s2x * oy;
    let d = s2y * ox;
    let e = s1x * oy;
    let f = s1y * ox;
    assert(ox * (a - b) == ox * a - ox * b) by (nonlinear_arith);
    assert(s1x * (c - d) == s1x * c - s1x * d) by (nonlinear_arith);
    assert(s2x * (e - f) == s2x * e - s2x * f) by (nonlinear_arith);
    assert(oy * (a - b) == oy * a - oy * b) by (nonlinear_arith);
    assert(s1y * (c - d) == s1y * c - s1y * d) by (nonlinear_arith);
    assert(s2y * (e - f) == s2y * e - s2y * f) by (nonlinear_arith);
    assert(ox * a == s1x * d) by (nonlinear_arith)
        requires
            a == s1x * s2y,
            d == s2y * ox,
    ;
    assert(ox * b == s2x * f) by (nonlinear_arith)
        requires
            b == s2x * s1y,
            f == s1y * ox,
    ;
    assert(s1x * c == s2x * e) by (nonlinear_arith)
        requires
            c == s2x * oy,
            e == s1x * oy,
    ;
    assert(oy * a == s2y * e) by (nonlinear_arith)
        requires
            a == s1x * s2y,
            e == s1x * oy,
    ;
    assert(oy * b == s1y * c) by (nonlinear_arith)
        requires
            b == s2x * s1y,
            c == s2x * oy,
    ;
    assert(s1y * d == s2y * f) by (nonlinear_arith)
        requires
            d == s2y * ox,
            f == s1y * ox,
    ;
}

/// Where two segments meet does not depend on which of them comes first.
pub proof fn lemma_intersection_symmetric(p1: Vertex, p2: Vertex, p3: Vertex, p4: Vertex)
    ensures
        intersection(p3, p4, p1, p2) == intersection(p1, p2, p3, p4),
{
    let s1x = p2.x - p1.x;
    let s1y = p2.y - p1.y;
    let s2x = p4.x - p3.x;
    let s2y = p4.y - p3.y;
    let ox = p1.x - p3.x;
    let oy = p1.y - p3.y;
    let d = s1x * s2y - s2x * s1y;
    let s = s1x * oy - s1y * ox;
    let t = s2x * oy - s2y * ox;
    // the same three numbers with the segments exchanged
    let d2 = s2x * s1y - s1x * s2y;
    let s2 = s2x * (-oy) - s2y * (-ox);
    let t2 = s1x * (-oy) - s1y * (-ox);
    assert(p3.x - p1.x == -ox && p3.y - p1.y == -oy);
    assert(d2 == -d);
    assert(s2 == -t) by (nonlinear_arith)
        requires
            s2 == s2x * (-oy) - s2y * (-ox),
            t == s2x * oy - s2y * ox,
    ;
    assert(t2 == -s) by (nonlinear_arith)
        requires
            t2 == s1x * (-oy) - s1y * (-ox),
            s == s1x * oy - s1y * ox,
    ;
    if d != 0 && in_unit_interval(s, d) && in_unit_interval(t, d) {
        // both parameters name the same point
        let nx = p1.x * d + s1x * t;
        let ny = p1.y * d + s1y * t;
        lemma_one_point(s1x, s1y, s2x, s2y, ox, oy);
        assert(p3.x * d2 + s2x * t2 == -nx) by (nonlinear_arith)
            requires
                nx == p1.x * d + s1x * t,
                d2 == -d,
                t2 == -s,
                ox * d + s1x * t == s2x * s,
                ox == p1.x - p3.x,
        ;
        assert(p3.y * d2 + s2y * t2 == -ny) by (nonlinear_arith)
            requires
                ny == p1.y * d + s1y * t,
                d2 == -d,
                t2 == -s,
                oy * d + s1y * t == s2y * s,
                oy == p1.y - p3.y,
        ;
        lemma_rounded_negated(nx, d);
        lemma_rounded_negated(ny, d);
    }
}

/// Where two segments meet does not depend on the end from which the first
/// is drawn.
pub proof fn lemma_intersection_reversed(p1: Vertex, p2: Vertex, p3: Vertex, p4: Vertex)
    ensures
        intersection(p2, p1, p3, p4) == intersection(p1, p2, p3, p4),
{
    let s1x = p2.x - p1.x;
    let s1y = p2.y - p1.y;
    let s2x = p4.x - p3.x;
    let s2y = p4.y - p3.y;
    let ox = p1.x - p3.x;
    let oy = p1.y - p3.y;
    let d = s1x * s2y - s2x * s1y;
    let s = s1x * oy - s1y * ox;
    let t = s2x * oy - s2y * ox;
    // the same three numbers with the first segment turned round
    let rx = p1.x - p2.x;
    let ry = p1.y - p2.y;
    let qx = p2.x - p3.x;
    let qy = p2.y - p3.y;
    let d2 = rx * s2y - s2x * ry;
    let s2 = rx * qy - ry * qx;
    let t2 = s2x * qy - s2y * qx;
    assert(d2 == -d) by (nonlinear_arith)
        requires
            d2 == rx * s2y - s2x * ry,
            d == s1x * s2y - s2x * s1y,
            rx == -s1x,
            ry == -s1y,
    ;
    assert(s2 == -s) by (nonlinear_arith)
        requires
            s2 == rx * qy - ry * qx,
            s == s1x * oy - s1y * ox,
            rx == -s1x,
            ry == -s1y,
            qx == ox + s1x,
            qy == oy + s1y,
    ;
    assert(t2 == t - d) by (nonlinear_arith)
        requires
            t2 == s2x * qy - s2y * qx,
            t == s2x * oy - s2y * ox,
            d == s1x * s2y - s2x * s1y,
            qx == ox + s1x,
            qy == oy + s1y,
    ;
    if d != 0 && in_unit_interval(s, d) && in_unit_interval(t, d) {
        let nx = p1.x * d + s1x * t;
        let ny = p1.y * d + s1y * t;
        assert(p2.x * d2 + rx * t2 == -nx) by (nonlinear_arith)
            requires
                nx == p1.x * d + s1x * t,
                d2 == -d,
                t2 == t - d,
                rx == -s1x,
                p2.x == p1.x + s1x,
        ;
        assert(p2.y * d2 + ry * t2 == -ny) by (nonlinear_arith)
            requires
                ny == p1.y * d + s1y * t,
                d2 == -d,
                t2 == t - d,
                ry == -s1y,
                p2.y == p1.y + s1y,
        ;
        lemma_rounded_negated(nx, d);
        lemma_rounded_negated(ny, d);
    }
}

/// Where two segments meet: see [`intersection`].
pub fn get_line_intersection(p1: Vertex, p2: Vertex, p3: Vertex, p4: Vertex) -> (r: Option<Vertex>)
    ensures
        r == intersection(p1, p2, p3, p4),
{
    let s1x: i64 = p2.x as i64 - p1.x as i64;
    let s1y: i64 = p2.y as i64 - p1.y as i64;
    let s2x: i64 = p4.x as i64 - p3.x as i64;
    let s2y: i64 = p4.y as i64 - p3.y as i64;
    let ox: i64 = p1.x as i64 - p3.x as i64;
    let oy: i64 = p1.y as i64 - p3.y as i64;
    let d: i128 = mul_wide(s1x, s2y) - mul_wide(s2x, s1y);
    let s: i128 = mul_wide(s1x, oy) - mul_wide(s1y, ox);
    let t: i128 = mul_wide(s2x, oy) - mul_wide(s2y, ox);
    if d == 0 {
        return None;
    }
    let inside: bool = if d > 0 {
        0 <= s && s <= d && 0 <= t && t <= d
    } else {
        d <= s && s <= 0 && d <= t && t <= 0
    };
    if !inside {
        return None;
    }
    Some(Vertex { x: interpolate(p1.x, p2.x, t, d), y: interpolate(p1.y, p2.y, t, d) })
}

} // verus!
