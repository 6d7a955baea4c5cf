//! Slicing: a triangle mesh is cut by a horizontal plane, and each face
//! that the plane meets leaves fragments of the contour.

use crate::geometry::{
    in_unit_interval, interpolate, lemma_rounded_negated, lerp, renormalize, unit_normal, Normal,
    Vertex,
};
use crate::polygons::{all_wf, paths, AbstractPolygon, Path, Polygon};
use vstd::prelude::*;

verus! {

/// The fragments that one plane cuts from a mesh.
pub type Slice = Vec<Polygon>;

/// A corner of the mesh, in lattice units. The axis `y` is the height.
#[derive(Clone, Copy, Debug, PartialEq, Eq, Structural)]
pub struct Vertex3 {
    pub x: i32,
    pub y: i32,
    pub z: i32,
}

/// The outward direction of a face.
#[derive(Clone, Copy, Debug, PartialEq, Eq, Structural)]
pub struct Normal3 {
    pub x: i32,
    pub y: i32,
    pub z: i32,
}

/// The mathematical content of a mesh.
pub struct Mesh {
    pub vertices: Seq<Vertex3>,
    pub normals: Seq<Normal3>,
    pub faces: Seq<[u32; 3]>,
}

impl Mesh {
    /// Each face has its normal, and its three corners are vertices of the
    /// mesh.
    pub open spec fn wf(self) -> bool {
        &&& self.normals.len() == self.faces.len()
        &&& forall|f: int, c: int|
            0 <= f < self.faces.len() && 0 <= c < 3 ==> (#[trigger] self.faces[f][c])
                < self.vertices.len()
    }

    /// Corner `c` of face `f`.
    pub open spec fn corner(self, f: int, c: int) -> Vertex3 {
        self.vertices[self.faces[f][c] as int]
    }
}

/// A corner without its height.
pub open spec fn project(v: Vertex3) -> Vertex {
    Vertex { x: v.x, y: v.z }
}

/// The fragment from `p` to `q` with the normal `n`.
pub open spec fn segment(p: Vertex, q: Vertex, n: Normal) -> Path<Vertex> {
    Path { points: seq![p, q], normals: seq![n, n] }
}

/// Where the edge from `a` to `b` crosses the plane at height `y`, for an
/// edge that is not level: the parameter `(y - a.y) / (b.y - a.y)` must lie
/// between 0 and 1, ends included, and the point is taken at that
/// parameter, each coordinate rounded to the nearest lattice unit.
pub open spec fn crossing(a: Vertex3, b: Vertex3, y: int) -> Option<Vertex> {
    if a.y != b.y && in_unit_interval(y - a.y, b.y - a.y) {
        Some(
            Vertex {
                x: lerp(a.x as int, b.x as int, y - a.y, b.y - a.y) as i32,
                y: lerp(a.z as int, b.z as int, y - a.y, b.y - a.y) as i32,
            },
        )
    } else {
        None
    }
}

/// An edge crosses the plane in the same point from whichever end it is
/// drawn.
pub proof fn lemma_crossing_reversed(a: Vertex3, b: Vertex3, y: int)
    ensures
        crossing(b, a, y) == crossing(a, b, y),
{
    let num = y - a.y;
    let den = b.y - a.y;
    if a.y != b.y && in_unit_interval(num, den) {
        let nx = a.x * den + (b.x - a.x) * num;
        let nz = a.z * den + (b.z - a.z) * num;
        assert(b.x * (-den) + (a.x - b.x) * (num - den) == -nx) by (nonlinear_arith)
            requires
                nx == a.x * den + (b.x - a.x) * num,
        ;
        assert(b.z * (-den) + (a.z - b.z) * (num - den) == -nz) by (nonlinear_arith)
            requires
                nz == a.z * den + (b.z - a.z) * num,
        ;
        assert(y - b.y == num - den && a.y - b.y == -den);
        lemma_rounded_negated(nx, den);
        lemma_rounded_negated(nz, den);
    }
}

/// The points that an edge leaves in the plane at height `y`: both its
/// ends where it lies in the plane, its crossing where it crosses the
/// plane, and none else.
pub open spec fn edge_points(a: Vertex3, b: Vertex3, y: int) -> Seq<Vertex> {
    if a.y == y && b.y == y {
        seq![project(a), project(b)]
    } else {
        match crossing(a, b, y) {
            Some(p) => seq![p],
            None => Seq::empty(),
        }
    }
}

/// The fragment that a level edge lying in the plane leaves: the edge
/// itself, unless its two ends fall on one point.
pub open spec fn level_fragment(a: Vertex3, b: Vertex3, n: Normal, y: int) -> Seq<Path<Vertex>> {
    if a.y == y && b.y == y && project(a) != project(b) {
        seq![segment(project(a), project(b), n)]
    } else {
        Seq::empty()
    }
}

/// The fragment between the points that the edges of a face leave in the
/// plane: from the first point to the first later one that is another
/// point. No fragment where there is no such pair.
pub open spec fn crossing_fragment(points: Seq<Vertex>, n: Normal) -> Seq<Path<Vertex>> {
    if points.len() >= 2 && points[1] != points[0] {
        seq![segment(points[0], points[1], n)]
    } else if points.len() >= 3 && points[2] != points[0] {
        seq![segment(points[0], points[2], n)]
    } else if points.len() >= 4 && points[3] != points[0] {
        seq![segment(points[0], points[3], n)]
    } else {
        Seq::empty()
    }
}

/// The points that the three edges of a face leave in the plane, edge by
/// edge. The edges run from `a` to `b`, from `b` to `c` and from `c` to `a`.
pub open spec fn face_points(a: Vertex3, b: Vertex3, c: Vertex3, y: int) -> Seq<Vertex> {
    edge_points(a, b, y) + edge_points(b, c, y) + edge_points(c, a, y)
}

/// The fragments that the plane at height `y` cuts from the face with the
/// corners `a`, `b`, `c` and the normal `n`.
///
/// A face that lies in the plane leaves its three edges. Any other face
/// leaves one fragment at most, between the first two different points
/// that its edges leave in the plane: a face that stands on an edge in the
/// plane leaves that edge, once.
pub open spec fn face_fragments(a: Vertex3, b: Vertex3, c: Vertex3, n: Normal3, y: int) -> Seq<
    Path<Vertex>,
> {
    let flat = unit_normal(n.x as int, n.z as int);
    if a.y == y && b.y == y && c.y == y {
        level_fragment(a, b, flat, y) + level_fragment(b, c, flat, y) + level_fragment(
            c,
            a,
            flat,
            y,
        )
    } else {
        crossing_fragment(face_points(a, b, c, y), flat)
    }
}

/// The fragments that the plane at height `y` cuts from the first `count`
/// faces of the mesh, face by face.
pub open spec fn fragments(mesh: Mesh, y: int, count: int) -> Seq<Path<Vertex>>
    decreases count,
{
    if count <= 0 {
        Seq::empty()
    } else {
        fragments(mesh, y, count - 1) + face_fragments(
            mesh.corner(count - 1, 0),
            mesh.corner(count - 1, 1),
            mesh.corner(count - 1, 2),
            mesh.normals[count - 1],
            y,
        )
    }
}

/// The fragments that the plane at height `y` cuts from the whole mesh.
pub open spec fn cut(mesh: Mesh, y: int) -> Seq<Path<Vertex>> {
    fragments(mesh, y, mesh.faces.len() as int)
}

/// Every corner of the mesh lies below the height `y`.
pub open spec fn all_corners_below(mesh: Mesh, y: int) -> bool {
    forall|i: int| 0 <= i < mesh.vertices.len() ==> (#[trigger] mesh.vertices[i]).y < y
}

/// Every corner of the mesh lies above the height `y`.
pub open spec fn all_corners_above(mesh: Mesh, y: int) -> bool {
    forall|i: int| 0 <= i < mesh.vertices.len() ==> (#[trigger] mesh.vertices[i]).y > y
}

/// A face whose corners all lie to one side of the plane leaves nothing.
pub proof fn lemma_face_apart(a: Vertex3, b: Vertex3, c: Vertex3, n: Normal3, y: int)
    requires
        (a.y < y && b.y < y && c.y < y) || (a.y > y && b.y > y && c.y > y),
    ensures
        face_fragments(a, b, c, n, y).len() == 0,
{
    assert(face_points(a, b, c, y) =~= Seq::<Vertex>::empty());
}

/// A plane above every corner of the mesh, or below every corner, cuts no
/// fragment from its first `count` faces.
pub proof fn lemma_fragments_apart(mesh: Mesh, y: int, count: int)
    requires
        mesh.wf(),
        count <= mesh.faces.len(),
        all_corners_below(mesh, y) || all_corners_above(mesh, y),
    ensures
        fragments(mesh, y, count).len() == 0,
    decreases count,
{
    if count > 0 {
        lemma_fragments_apart(mesh, y, count - 1);
        let f = count - 1;
        assert(mesh.faces[f][0] < mesh.vertices.len());
        assert(mesh.faces[f][1] < mesh.vertices.len());
        assert(mesh.faces[f][2] < mesh.vertices.len());
        lemma_face_apart(
            mesh.corner(f, 0),
            mesh.corner(f, 1),
            mesh.corner(f, 2),
            mesh.normals[f],
            y,
        );
    }
}

/// A plane strictly above the highest corner of a mesh, or strictly below
/// its lowest, cuts nothing from it.
pub proof fn lemma_cut_apart(mesh: Mesh, y: int)
    requires
        mesh.wf(),
        all_corners_below(mesh, y) || all_corners_above(mesh, y),
    ensures
        cut(mesh, y).len() == 0,
{
    lemma_fragments_apart(mesh, y, mesh.faces.len() as int);
}

/// What a face leaves stays in the cut of every longer run of faces.
pub proof fn lemma_fragments_hold(mesh: Mesh, y: int, f: int, count: int, piece: Path<Vertex>)
    requires
        0 <= f < count,
        face_fragments(
            mesh.corner(f, 0),
            mesh.corner(f, 1),
            mesh.corner(f, 2),
            mesh.normals[f],
            y,
        ).contains(piece),
    ensures
        fragments(mesh, y, count).contains(piece),
    decreases count,
{
    let before = fragments(mesh, y, count - 1);
    let last = face_fragments(
        mesh.corner(count - 1, 0),
        mesh.corner(count - 1, 1),
        mesh.corner(count - 1, 2),
        mesh.normals[count - 1],
        y,
    );
    if f == count - 1 {
        let k = choose|k: int| 0 <= k < last.len() && last[k] == piece;
        assert((before + last)[before.len() + k] == piece);
    } else {
        lemma_fragments_hold(mesh, y, f, count - 1, piece);
        let k = choose|k: int| 0 <= k < before.len() && before[k] == piece;
        assert((before + last)[k] == piece);
    }
}

/// Where a face of the mesh lies in the plane, the cut holds each edge of
/// that face whose two ends are apart, as a fragment from its first end
/// to its second with the face's normal brought to unit length.
pub proof fn lemma_cut_level_face(mesh: Mesh, y: int, f: int)
    requires
        0 <= f < mesh.faces.len(),
        mesh.corner(f, 0).y == y,
        mesh.corner(f, 1).y == y,
        mesh.corner(f, 2).y == y,
    ensures
        forall|c: int|
            0 <= c < 3 && project(mesh.corner(f, c)) != project(mesh.corner(f, (c + 1) % 3))
                ==> cut(mesh, y).contains(
                #[trigger] segment(
                    project(mesh.corner(f, c)),
                    project(mesh.corner(f, (c + 1) % 3)),
                    unit_normal(mesh.normals[f].x as int, mesh.normals[f].z as int),
                ),
            ),
{
    let a = mesh.corner(f, 0);
    let b = mesh.corner(f, 1);
    let c0 = mesh.corner(f, 2);
    let n = unit_normal(mesh.normals[f].x as int, mesh.normals[f].z as int);
    let all = face_fragments(a, b, c0, mesh.normals[f], y);
    let e0 = level_fragment(a, b, n, y);
    let e1 = level_fragment(b, c0, n, y);
    let e2 = level_fragment(c0, a, n, y);
    assert(all =~= e0 + e1 + e2);
    assert forall|c: int|
        0 <= c < 3 && project(mesh.corner(f, c)) != project(
            mesh.corner(f, (c + 1) % 3),
        ) implies cut(mesh, y).contains(
        #[trigger] segment(
            project(mesh.corner(f, c)),
            project(mesh.corner(f, (c + 1) % 3)),
            unit_normal(mesh.normals[f].x as int, mesh.normals[f].z as int),
        ),
    ) by {
        let piece = segment(project(mesh.corner(f, c)), project(mesh.corner(f, (c + 1) % 3)), n);
        if c == 0 {
            assert(all[0] == piece);
        } else if c == 1 {
            assert(all[e0.len() as int] == piece);
        } else {
            assert(all[(e0.len() + e1.len()) as int] == piece);
        }
        lemma_fragments_hold(mesh, y, f, mesh.faces.len() as int, piece);
    }
}

/// Whether `piece` is a fragment: two different points, each with a normal.
pub open spec fn is_fragment(piece: Path<Vertex>) -> bool {
    piece.points.len() == 2 && piece.normals.len() == 2 && piece.points[0] != piece.points[1]
}

/// Whatever a face leaves is a fragment between two different points.
pub proof fn lemma_face_fragments(a: Vertex3, b: Vertex3, c: Vertex3, n: Normal3, y: int)
    ensures
        forall|k: int|
            0 <= k < face_fragments(a, b, c, n, y).len() ==> is_fragment(
                #[trigger] face_fragments(a, b, c, n, y)[k],
            ),
{
    let flat = unit_normal(n.x as int, n.z as int);
    let e0 = level_fragment(a, b, flat, y);
    let e1 = level_fragment(b, c, flat, y);
    let e2 = level_fragment(c, a, flat, y);
    let last = crossing_fragment(face_points(a, b, c, y), flat);
    assert forall|k: int| 0 <= k < face_fragments(a, b, c, n, y).len() implies is_fragment(
        #[trigger] face_fragments(a, b, c, n, y)[k],
    ) by {
        let all = face_fragments(a, b, c, n, y);
        if a.y == y && b.y == y && c.y == y {
            if k < e0.len() {
                assert(all[k] == e0[k]);
            } else if k < e0.len() + e1.len() {
                assert(all[k] == e1[k - e0.len()]);
            } else {
                assert(all[k] == e2[k - e0.len() - e1.len()]);
            }
        } else {
            assert(all[k] == last[k]);
        }
    }
}

/// The normal that the fragments of face `f` carry: the normal of the
/// face without its height, brought to unit length.
pub open spec fn face_normal(mesh: Mesh, f: int) -> Normal {
    unit_normal(mesh.normals[f].x as int, mesh.normals[f].z as int)
}

/// Whether `piece` carries the normal `n` beside both its points.
pub open spec fn carries(piece: Path<Vertex>, n: Normal) -> bool {
    piece.normals == seq![n, n]
}

/// Whether `piece` carries the normal of one of the first `count` faces.
pub open spec fn carries_face_normal(mesh: Mesh, count: int, piece: Path<Vertex>) -> bool {
    exists|f: int| 0 <= f < count && carries(piece, #[trigger] face_normal(mesh, f))
}

/// Whatever a face leaves carries the normal of the face, brought to unit
/// length in the plane; and a face that does not lie in the plane leaves
/// one fragment at most.
pub proof fn lemma_face_normals(a: Vertex3, b: Vertex3, c: Vertex3, n: Normal3, y: int)
    ensures
        forall|k: int|
            0 <= k < face_fragments(a, b, c, n, y).len() ==> carries(
                #[trigger] face_fragments(a, b, c, n, y)[k],
                unit_normal(n.x as int, n.z as int),
            ),
        !(a.y == y && b.y == y && c.y == y) ==> face_fragments(a, b, c, n, y).len() <= 1,
{
    let flat = unit_normal(n.x as int, n.z as int);
    let e0 = level_fragment(a, b, flat, y);
    let e1 = level_fragment(b, c, flat, y);
    let e2 = level_fragment(c, a, flat, y);
    let last = crossing_fragment(face_points(a, b, c, y), flat);
    assert forall|k: int| 0 <= k < face_fragments(a, b, c, n, y).len() implies carries(
        #[trigger] face_fragments(a, b, c, n, y)[k],
        flat,
    ) by {
        let all = face_fragments(a, b, c, n, y);
        if a.y == y && b.y == y && c.y == y {
            if k < e0.len() {
                assert(all[k] == e0[k]);
            } else if k < e0.len() + e1.len() {
                assert(all[k] == e1[k - e0.len()]);
            } else {
                assert(all[k] == e2[k - e0.len() - e1.len()]);
            }
        } else {
            assert(all[k] == last[k]);
        }
    }
}

/// Every fragment that the plane cuts from the first `count` faces carries
/// the normal of one of those faces, brought to unit length in the plane.
pub proof fn lemma_fragments_normals(mesh: Mesh, y: int, count: int)
    ensures
        forall|k: int|
            0 <= k < fragments(mesh, y, count).len() ==> carries_face_normal(
                mesh,
                count,
                #[trigger] fragments(mesh, y, count)[k],
            ),
    decreases count,
{
    if count > 0 {
        lemma_fragments_normals(mesh, y, count - 1);
        let before = fragments(mesh, y, count - 1);
        let f = count - 1;
        lemma_face_normals(
            mesh.corner(f, 0),
            mesh.corner(f, 1),
            mesh.corner(f, 2),
            mesh.normals[f],
            y,
        );
        let last = face_fragments(
            mesh.corner(f, 0),
            mesh.corner(f, 1),
            mesh.corner(f, 2),
            mesh.normals[f],
            y,
        );
        assert forall|k: int| 0 <= k < fragments(mesh, y, count).len() implies carries_face_normal(
            mesh,
            count,
            #[trigger] fragments(mesh, y, count)[k],
        ) by {
            if k < before.len() {
                assert(fragments(mesh, y, count)[k] == before[k]);
                assert(carries_face_normal(mesh, count - 1, before[k]));
                let g = choose|g: int|
                    0 <= g < count - 1 && carries(before[k], #[trigger] face_normal(mesh, g));
                assert(carries(fragments(mesh, y, count)[k], face_normal(mesh, g)));
            } else {
                assert(fragments(mesh, y, count)[k] == last[k - before.len()]);
                assert(carries(fragments(mesh, y, count)[k], face_normal(mesh, f)));
            }
        }
    }
}

/// Whatever the plane cuts from the first `count` faces of a mesh is a
/// fragment between two different points.
pub proof fn lemma_fragments(mesh: Mesh, y: int, count: int)
    ensures
        forall|k: int|
            0 <= k < fragments(mesh, y, count).len() ==> is_fragment(
                #[trigger] fragments(mesh, y, count)[k],
            ),
    decreases count,
{
    if count > 0 {
        lemma_fragments(mesh, y, count - 1);
        let before = fragments(mesh, y, count - 1);
        lemma_face_fragments(
            mesh.corner(count - 1, 0),
            mesh.corner(count - 1, 1),
            mesh.corner(count - 1, 2),
            mesh.normals[count - 1],
            y,
        );
        let last = face_fragments(
            mesh.corner(count - 1, 0),
            mesh.corner(count - 1, 1),
            mesh.corner(count - 1, 2),
            mesh.normals[count - 1],
            y,
        );
        assert forall|k: int| 0 <= k < fragments(mesh, y, count).len() implies is_fragment(
            #[trigger] fragments(mesh, y, count)[k],
        ) by {
            if k < before.len() {
                assert(fragments(mesh, y, count)[k] == before[k]);
            } else {
                assert(fragments(mesh, y, count)[k] == last[k - before.len()]);
            }
        }
    }
}

/// The crossing of an edge with the plane: see [`crossing`].
fn edge_crossing(a: Vertex3, b: Vertex3, y: i32) -> (r: Option<Vertex>)
    ensures
        r == crossing(a, b, y as int),
{
    let den: i64 = b.y as i64 - a.y as i64;
    let num: i64 = y as i64 - a.y as i64;
    if den == 0 {
        return None;
    }
    let inside: bool = if den > 0 {
        0 <= num && num <= den
    } else {
        den <= num && num <= 0
    };
    if !inside {
        return None;
    }
    Some(
        Vertex {
            x: interpolate(a.x, b.x, num as i128, den as i128),
            y: interpolate(a.z, b.z, num as i128, den as i128),
        },
    )
}

/// A corner without its height: see [`project`].
fn flatten(v: Vertex3) -> (p: Vertex)
    ensures
        p == project(v),
{
    Vertex { x: v.x, y: v.z }
}

/// The fragment from `p` to `q`: see [`segment`].
fn make_segment(p: Vertex, q: Vertex, n: Normal) -> (r: Polygon)
    ensures
        r@ == segment(p, q, n),
{
    let mut points: Vec<Vertex> = Vec::new();
    points.push(p);
    points.push(q);
    let mut normals: Vec<Normal> = Vec::new();
    normals.push(n);
    normals.push(n);
    assert(points@ =~= seq![p, q]);
    assert(normals@ =~= seq![n, n]);
    AbstractPolygon { points, normals }
}

/// Adds the fragment of a level edge to `out`: see [`level_fragment`].
fn push_level_fragment(out: &mut Vec<Polygon>, a: Vertex3, b: Vertex3, n: Normal, y: i32)
    ensures
        paths(final(out)@) == paths(old(out)@) + level_fragment(a, b, n, y as int),
{
    if a.y == y && b.y == y {
        let p: Vertex = flatten(a);
        let q: Vertex = flatten(b);
        if p != q {
            out.push(make_segment(p, q, n));
            assert(paths(out@) =~= paths(old(out)@) + level_fragment(a, b, n, y as int));
            return ;
        }
    }
    assert(paths(out@) =~= paths(old(out)@) + level_fragment(a, b, n, y as int));
}

/// Adds the points that an edge leaves in the plane to `points`: see
/// [`edge_points`].
fn push_edge_points(points: &mut Vec<Vertex>, a: Vertex3, b: Vertex3, y: i32)
    ensures
        final(points)@ == old(points)@ + edge_points(a, b, y as int),
{
    if a.y == y && b.y == y {
        points.push(flatten(a));
        points.push(flatten(b));
    } else {
        match edge_crossing(a, b, y) {
            Some(p) => {
                points.push(p);
            },
            None => {},
        }
    }
    assert(points@ =~= old(points)@ + edge_points(a, b, y as int));
}

/// Adds the fragments of one face to `out`: see [`face_fragments`].
fn push_face_fragments(
    out: &mut Vec<Polygon>,
    a: Vertex3,
    b: Vertex3,
    c: Vertex3,
    n: Normal3,
    y: i32,
)
    ensures
        paths(final(out)@) == paths(old(out)@) + face_fragments(a, b, c, n, y as int),
{
    let flat: Normal = renormalize(n.x, n.z);
    if a.y == y && b.y == y && c.y == y {
        push_level_fragment(out, a, b, flat, y);
        push_level_fragment(out, b, c, flat, y);
        push_level_fragment(out, c, a, flat, y);
        assert(paths(out@) =~= paths(old(out)@) + face_fragments(a, b, c, n, y as int));
        return ;
    }
    let mut points: Vec<Vertex> = Vec::new();
    push_edge_points(&mut points, a, b, y);
    push_edge_points(&mut points, b, c, y);
    push_edge_points(&mut points, c, a, y);
    assert(points@ =~= face_points(a, b, c, y as int));
    let mut k: usize = 1;
    while k < points.len() && k < 4 && points[k] == points[0]
        invariant
            1 <= k <= 4,
            forall|m: int| 1 <= m < k && m < points@.len() ==> #[trigger] points@[m] == points@[0],
        decreases 4 - k,
    {
        k += 1;
    }
    if k < points.len() && k < 4 {
        out.push(make_segment(points[0], points[k], flat));
    }
    assert(paths(out@) =~= paths(old(out)@) + crossing_fragment(points@, flat));
}

/// A triangle mesh: its corners, its faces as triples of corner indices,
/// and the outward normal of each face.
#[derive(Debug)]
pub struct Model {
    // all points in model
    vertices: Vec<Vertex3>,
    // normal for every face
    normals: Vec<Normal3>,
    // the model's faces
    faces: Vec<[u32; 3]>,
}

impl View for Model {
    type V = Mesh;

    closed spec fn view(&self) -> Mesh {
        Mesh { vertices: self.vertices@, normals: self.normals@, faces: self.faces@ }
    }
}

impl Model {
    /// A mesh of the given corners, face normals and faces; `None` unless
    /// each face has its normal and its three indices are indices of corners.
    pub fn new(vertices: Vec<Vertex3>, normals: Vec<Normal3>, faces: Vec<[u32; 3]>) -> (r: Option<
        Model,
    >)
        ensures
            r is Some == (Mesh { vertices: vertices@, normals: normals@, faces: faces@ }).wf(),
            r matches Some(m) ==> m@ == (Mesh {
                vertices: vertices@,
                normals: normals@,
                faces: faces@,
            }),
    {
        let ghost mesh = Mesh { vertices: vertices@, normals: normals@, faces: faces@ };
        if normals.len() != faces.len() {
            return None;
        }
        let mut f: usize = 0;
        while f < faces.len()
            invariant
                f <= faces.len(),
                forall|k: int, c: int|
                    0 <= k < f && 0 <= c < 3 ==> (#[trigger] faces@[k][c]) < vertices@.len(),
            decreases faces.len() - f,
        {
            let face: [u32; 3] = faces[f];
            if face[0] as usize >= vertices.len() || face[1] as usize >= vertices.len()
                || face[2] as usize >= vertices.len() {
                assert(!(faces@[f as int][0] < vertices@.len() && faces@[f as int][1]
                    < vertices@.len() && faces@[f as int][2] < vertices@.len()));
                return None;
            }
            f += 1;
        }
        Some(Model { vertices, normals, faces })
    }

    /// Every value of this type is a well-formed mesh.
    #[verifier::type_invariant]
    spec fn well_formed(self) -> bool {
        self@.wf()
    }

    /// creates a slice of a model at a given height (y)
    ///
    /// The fragments come face by face, as [`cut`] lists them. `None` where
    /// the plane cuts no fragment from any face. Each fragment is two
    /// different points, with the normal of its face beside both: the
    /// normal without its height, brought to unit length.
    pub fn slice(&self, y: i32) -> (r: Option<Slice>)
        ensures
            self@.wf(),
            r is None == (cut(self@, y as int).len() == 0),
            r matches Some(outline) ==> paths(outline@) == cut(self@, y as int),
            r matches Some(outline) ==> all_wf(paths(outline@)),
            r matches Some(outline) ==> forall|k: int|
                0 <= k < outline@.len() ==> is_fragment(#[trigger] outline@[k]@),
            r matches Some(outline) ==> forall|k: int|
                0 <= k < outline@.len() ==> carries_face_normal(
                    self@,
                    self@.faces.len() as int,
                    #[trigger] outline@[k]@,
                ),
    {
        proof {
            use_type_invariant(self);
            lemma_fragments(self@, y as int, self@.faces.len() as int);
            lemma_fragments_normals(self@, y as int, self@.faces.len() as int);
        }
        let mut outline: Vec<Polygon> = Vec::new();
        let mut f: usize = 0;
        assert(paths(outline@) =~= fragments(self@, y as int, 0));
        while f < self.faces.len()
            invariant
                f <= self.faces.len(),
                self@.wf(),
                paths(outline@) == fragments(self@, y as int, f as int),
            decreases self.faces.len() - f,
        {
            let face: [u32; 3] = self.faces[f];
            assert(self@.faces[f as int][0] < self@.vertices.len());
            assert(self@.faces[f as int][1] < self@.vertices.len());
            assert(self@.faces[f as int][2] < self@.vertices.len());
            let a: Vertex3 = self.vertices[face[0] as usize];
            let b: Vertex3 = self.vertices[face[1] as usize];
            let c: Vertex3 = self.vertices[face[2] as usize];
            push_face_fragments(&mut outline, a, b, c, self.normals[f], y);
            f += 1;
        }
        if outline.len() > 0 {
            assert forall|k: int| 0 <= k < outline@.len() implies is_fragment(
                #[trigger] outline@[k]@,
            ) by {
                assert(outline@[k]@ == paths(outline@)[k]);
            }
            assert forall|k: int| 0 <= k < outline@.len() implies carries_face_normal(
                self@,
                self@.faces.len() as int,
                #[trigger] outline@[k]@,
            ) by {
                assert(outline@[k]@ == paths(outline@)[k]);
            }
            assert(all_wf(paths(outline@)));
            Some(outline)
        } else {
            None
        }
    }
}

} // verus!
