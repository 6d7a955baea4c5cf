//! Welding: points that lie within a tolerance of each other become one
//! entry of a pool, and an index into the pool stands for the point.

use crate::geometry::{dist2, distance_squared, Vertex};
use crate::polygons::{below, copy_vec, AbstractPolygon, IndexPolygon, Polygon};
use vstd::prelude::*;

verus! {

/// The tolerance of a pool made by [`VertexPool::default`]: a hundredth of a
/// model unit on a lattice of a thousandth.
pub const DEFAULT_TOLERANCE: u32 = 10;

/// Whether `q` lies closer to the pool entry `entry` than `eps`.
pub open spec fn near(entry: Vertex, q: Vertex, eps: int) -> bool {
    dist2(entry, q) < eps * eps
}

/// No entry of the pool lies closer than `eps` to an earlier one.
pub open spec fn separated(pool: Seq<Vertex>, eps: int) -> bool {
    forall|i: int, j: int|
        0 <= i < j < pool.len() ==> !near(#[trigger] pool[i], #[trigger] pool[j], eps)
}

/// The index that welding `p` into `pool` gives: that of the first entry
/// closer to `p` than `eps`, and the length of the pool if there is none.
pub open spec fn weld_index(pool: Seq<Vertex>, eps: int, p: Vertex) -> int
    decreases pool.len(),
{
    if pool.len() == 0 {
        0
    } else {
        let before = weld_index(pool.drop_last(), eps, p);
        if before < pool.len() - 1 {
            before
        } else if near(pool.last(), p, eps) {
            pool.len() - 1
        } else {
            pool.len() as int
        }
    }
}

/// The pool after welding `p` into it: `p` is added only if no entry is
/// closer to it than `eps`.
pub open spec fn welded(pool: Seq<Vertex>, eps: int, p: Vertex) -> Seq<Vertex> {
    if weld_index(pool, eps, p) == pool.len() {
        pool.push(p)
    } else {
        pool
    }
}

/// The pool and the indices after welding each of `points` in turn.
pub open spec fn weld_all(pool: Seq<Vertex>, eps: int, points: Seq<Vertex>) -> (
    Seq<Vertex>,
    Seq<usize>,
)
    decreases points.len(),
{
    if points.len() == 0 {
        (pool, Seq::empty())
    } else {
        let before = weld_all(pool, eps, points.drop_last());
        (
            welded(before.0, eps, points.last()),
            before.1.push(weld_index(before.0, eps, points.last()) as usize),
        )
    }
}

/// `weld_index` is the first index whose entry is near, or the length.
pub proof fn lemma_weld_index(pool: Seq<Vertex>, eps: int, p: Vertex)
    ensures
        0 <= weld_index(pool, eps, p) <= pool.len(),
        forall|k: int| 0 <= k < weld_index(pool, eps, p) ==> !near(#[trigger] pool[k], p, eps),
        weld_index(pool, eps, p) < pool.len() ==> near(pool[weld_index(pool, eps, p)], p, eps),
    decreases pool.len(),
{
    if pool.len() > 0 {
        lemma_weld_index(pool.drop_last(), eps, p);
        assert forall|k: int| 0 <= k < weld_index(pool, eps, p) implies !near(
            #[trigger] pool[k],
            p,
            eps,
        ) by {
            if k < pool.len() - 1 {
                assert(pool[k] == pool.drop_last()[k]);
            }
        }
        if weld_index(pool, eps, p) < pool.len() - 1 {
            assert(pool[weld_index(pool, eps, p)] == pool.drop_last()[weld_index(pool, eps, p)]);
        }
    }
}

/// Welding keeps the entries of a pool apart.
pub proof fn lemma_welded_separated(pool: Seq<Vertex>, eps: int, p: Vertex)
    requires
        separated(pool, eps),
    ensures
        separated(welded(pool, eps, p), eps),
{
    lemma_weld_index(pool, eps, p);
}

/// Welding a point that a pool of separated entries already holds gives
/// the index of that entry and leaves the pool as it is, for any tolerance
/// above zero.
pub proof fn lemma_weld_idempotent(pool: Seq<Vertex>, eps: int, k: int)
    requires
        separated(pool, eps),
        eps > 0,
        0 <= k < pool.len(),
    ensures
        weld_index(pool, eps, pool[k]) == k,
        welded(pool, eps, pool[k]) == pool,
{
    let p = pool[k];
    lemma_weld_index(pool, eps, p);
    assert(near(pool[k], p, eps)) by (nonlinear_arith)
        requires
            eps > 0,
            dist2(pool[k], p) == 0,
            near(pool[k], p, eps) == (dist2(pool[k], p) < eps * eps),
    ;
    let i = weld_index(pool, eps, p);
    if i < k {
        assert(!near(pool[i], pool[k], eps));
    }
}

/// Welding a point that no entry of the pool is near adds it at the end and
/// gives the new index.
pub proof fn lemma_weld_apart(pool: Seq<Vertex>, eps: int, p: Vertex)
    requires
        forall|k: int| 0 <= k < pool.len() ==> !near(#[trigger] pool[k], p, eps),
    ensures
        weld_index(pool, eps, p) == pool.len(),
        welded(pool, eps, p) == pool.push(p),
{
    lemma_weld_index(pool, eps, p);
}

/// The indices that `weld_all` gives are as many as the points, and each
/// lies within the pool that it gives.
pub proof fn lemma_weld_all(pool: Seq<Vertex>, eps: int, points: Seq<Vertex>)
    ensures
        weld_all(pool, eps, points).1.len() == points.len(),
        pool.len() <= weld_all(pool, eps, points).0.len() <= pool.len() + points.len(),
        weld_all(pool, eps, points).0.take(pool.len() as int) == pool,
        separated(pool, eps) ==> separated(weld_all(pool, eps, points).0, eps),
        weld_all(pool, eps, points).0.len() <= usize::MAX ==> forall|i: int|
            0 <= i < points.len() ==> (#[trigger] weld_all(pool, eps, points).1[i]) < weld_all(
                pool,
                eps,
                points,
            ).0.len(),
    decreases points.len(),
{
    if points.len() == 0 {
        assert(pool.take(pool.len() as int) =~= pool);
    } else {
        let before = weld_all(pool, eps, points.drop_last());
        lemma_weld_all(pool, eps, points.drop_last());
        lemma_weld_index(before.0, eps, points.last());
        if separated(pool, eps) {
            lemma_welded_separated(before.0, eps, points.last());
        }
        let after = weld_all(pool, eps, points);
        assert(after.0.take(pool.len() as int) =~= before.0.take(pool.len() as int));
    }
}

/// An append-only pool of welded points. The index of an entry is the sole
/// identity of a point after welding.
#[derive(Debug)]
pub struct VertexPool {
    points: Vec<Vertex>,
    tolerance: u32,
}

/// The mathematical content of a pool: its entries in the order of their
/// indices, and the distance under which two points are one.
pub struct Pool {
    pub points: Seq<Vertex>,
    pub eps: int,
}

impl View for VertexPool {
    type V = Pool;

    closed spec fn view(&self) -> Pool {
        Pool { points: self.points@, eps: self.tolerance as int }
    }
}

impl Default for VertexPool {
    /// An empty pool with the tolerance [`DEFAULT_TOLERANCE`].
    fn default() -> (pool: VertexPool)
        ensures
            pool@.points == Seq::<Vertex>::empty(),
            pool@.eps == DEFAULT_TOLERANCE,
            pool.wf(),
    {
        VertexPool { points: Vec::new(), tolerance: DEFAULT_TOLERANCE }
    }
}

impl VertexPool {
    /// No entry of the pool lies closer than the tolerance to an earlier
    /// one. A new pool is so, and welding keeps it so.
    pub open spec fn wf(&self) -> bool {
        separated(self@.points, self@.eps)
    }

    /// An empty pool with the given tolerance.
    pub fn new(tolerance: u32) -> (pool: VertexPool)
        ensures
            pool@.points == Seq::<Vertex>::empty(),
            pool@.eps == tolerance,
            pool.wf(),
    {
        VertexPool { points: Vec::new(), tolerance }
    }

    /// The tolerance that the pool was made with.
    pub fn tolerance(&self) -> (t: u32)
        ensures
            t == self@.eps,
    {
        self.tolerance
    }

    /// The number of entries.
    pub fn len(&self) -> (n: usize)
        ensures
            n == self@.points.len(),
    {
        self.points.len()
    }

    /// The entry at index `i`.
    pub fn get(&self, i: usize) -> (p: Vertex)
        requires
            i < self@.points.len(),
        ensures
            p == self@.points[i as int],
    {
        self.points[i]
    }

    /// The entries in the order of their indices.
    pub fn vertices(&self) -> (v: &Vec<Vertex>)
        ensures
            v@ == self@.points,
    {
        &self.points
    }

    /// The index of `point` in the pool: that of the first entry closer to
    /// it than the tolerance, or a new one at the end, where `point` is then
    /// stored.
    ///
    /// In a well-formed pool with a tolerance above zero, a point that the
    /// pool holds gets the index at which the pool holds it. A point that is
    /// near no entry gets a new index.
    pub fn weld(&mut self, point: Vertex) -> (index: usize)
        ensures
            index == weld_index(old(self)@.points, old(self)@.eps, point),
            final(self)@.points == welded(old(self)@.points, old(self)@.eps, point),
            final(self)@.eps == old(self)@.eps,
            index < final(self)@.points.len(),
            index < old(self)@.points.len() ==> near(
                old(self)@.points[index as int],
                point,
                old(self)@.eps,
            ),
            forall|k: int|
                0 <= k < index ==> !near(#[trigger] old(self)@.points[k], point, old(self)@.eps),
            old(self).wf() ==> final(self).wf(),
            old(self).wf() && old(self)@.eps > 0 ==> forall|k: int|
                0 <= k < old(self)@.points.len() && #[trigger] old(self)@.points[k] == point
                    ==> index == k,
            (forall|k: int|
                0 <= k < old(self)@.points.len() ==> !near(
                    #[trigger] old(self)@.points[k],
                    point,
                    old(self)@.eps,
                )) ==> index == old(self)@.points.len() && final(self)@.points == old(
                self,
            )@.points.push(point),
    {
        assert(self.tolerance * self.tolerance <= 0xffff_ffff * 0xffff_ffff) by (nonlinear_arith)
            requires
                0 <= self.tolerance <= 0xffff_ffff,
        ;
        let limit: u128 = (self.tolerance as u128) * (self.tolerance as u128);
        let n: usize = self.points.len();
        let mut i: usize = 0;
        while i < n
            invariant
                i <= n,
                n == self.points.len(),
                *self == *old(self),
                limit == self@.eps * self@.eps,
                weld_index(self@.points.take(i as int), self@.eps, point) == i,
            decreases n - i,
        {
            assert(self@.points.take(i + 1).drop_last() =~= self@.points.take(i as int));
            if distance_squared(self.points[i], point) < limit {
                proof {
                    lemma_weld_found(self@.points, self@.eps, point, i as int);
                    lemma_weld(self@.points, self@.eps, point);
                }
                return i;
            }
            i += 1;
        }
        proof {
            assert(self@.points.take(n as int) =~= self@.points);
            lemma_weld(self@.points, self@.eps, point);
        }
        self.points.push(point);
        n
    }
}

/// What welding a point into a pool comes to: the laws of this module in
/// one.
proof fn lemma_weld(pool: Seq<Vertex>, eps: int, p: Vertex)
    ensures
        0 <= weld_index(pool, eps, p) <= pool.len(),
        forall|k: int| 0 <= k < weld_index(pool, eps, p) ==> !near(#[trigger] pool[k], p, eps),
        weld_index(pool, eps, p) < pool.len() ==> near(pool[weld_index(pool, eps, p)], p, eps),
        separated(pool, eps) ==> separated(welded(pool, eps, p), eps),
        separated(pool, eps) && eps > 0 ==> forall|k: int|
            0 <= k < pool.len() && #[trigger] pool[k] == p ==> weld_index(pool, eps, p) == k,
{
    lemma_weld_index(pool, eps, p);
    if separated(pool, eps) {
        lemma_welded_separated(pool, eps, p);
        if eps > 0 {
            assert forall|k: int| 0 <= k < pool.len() && #[trigger] pool[k] == p implies weld_index(
                pool,
                eps,
                p,
            ) == k by {
                lemma_weld_idempotent(pool, eps, k);
            }
        }
    }
}

/// Once a prefix of the pool holds a near entry, the rest of the pool does
/// not change the index.
proof fn lemma_weld_found(pool: Seq<Vertex>, eps: int, p: Vertex, i: int)
    requires
        0 <= i < pool.len(),
        weld_index(pool.take(i + 1), eps, p) == i,
    ensures
        weld_index(pool, eps, p) == i,
    decreases pool.len(),
{
    if pool.len() > i + 1 {
        assert(pool.drop_last().take(i + 1) =~= pool.take(i + 1));
        lemma_weld_found(pool.drop_last(), eps, p, i);
    } else {
        assert(pool.take(i + 1) =~= pool);
    }
}

impl Polygon {
    /// The polyline over the indices that welding its points into
    /// `vertices` gives, one after the other, with the same normals.
    pub fn to_indices(&self, vertices: &mut VertexPool) -> (r: IndexPolygon)
        ensures
            final(vertices)@.points == weld_all(
                old(vertices)@.points,
                old(vertices)@.eps,
                self@.points,
            ).0,
            r@.points == weld_all(old(vertices)@.points, old(vertices)@.eps, self@.points).1,
            r@.normals == self@.normals,
            r@.points.len() == self@.points.len(),
            final(vertices)@.eps == old(vertices)@.eps,
            below(r@, final(vertices)@.points.len() as int),
            old(vertices)@.points.len() <= final(vertices)@.points.len(),
            old(vertices).wf() ==> final(vertices).wf(),
    {
        let mut indices: Vec<usize> = Vec::new();
        let mut i: usize = 0;
        while i < self.points.len()
            invariant
                i <= self.points.len(),
                vertices@.eps == old(vertices)@.eps,
                vertices@.points == weld_all(
                    old(vertices)@.points,
                    old(vertices)@.eps,
                    self@.points.take(i as int),
                ).0,
                indices@ == weld_all(
                    old(vertices)@.points,
                    old(vertices)@.eps,
                    self@.points.take(i as int),
                ).1,
            decreases self.points.len() - i,
        {
            assert(self@.points.take(i + 1).drop_last() =~= self@.points.take(i as int));
            let index: usize = vertices.weld(self.points[i]);
            indices.push(index);
            i += 1;
        }
        proof {
            assert(self@.points.take(i as int) =~= self@.points);
            lemma_weld_all(old(vertices)@.points, old(vertices)@.eps, self@.points);
        }
        AbstractPolygon { points: indices, normals: copy_vec(&self.normals) }
    }
}

} // verus!
