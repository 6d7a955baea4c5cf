//! Cartesian products of lists.

use vstd::arithmetic::div_mod::lemma_fundamental_div_mod_converse;
use vstd::prelude::*;

verus! {

/// The lengths of the lists.
pub open spec fn lengths<T>(lists: Seq<Vec<T>>) -> Seq<nat> {
    Seq::new(lists.len(), |p: int| lists[p]@.len())
}

/// The number of ways to pick one element from each of the lists that
/// have these lengths.
pub open spec fn row_count(lens: Seq<nat>) -> nat
    decreases lens.len(),
{
    if lens.len() == 0 {
        1
    } else {
        row_count(lens.drop_last()) * lens.last()
    }
}

/// The index of the element that row `r` of the product picks from list `p`.
/// The rows are numbered so that the pick from the last list changes
/// fastest.
pub open spec fn pick(lens: Seq<nat>, r: int, p: int) -> int
    decreases lens.len(),
{
    if lens.len() == 0 {
        0
    } else if p == lens.len() - 1 {
        r % (lens.last() as int)
    } else {
        pick(lens.drop_last(), r / (lens.last() as int), p)
    }
}

/// Whether `row` is a clone of `xs` followed by a clone of `y`.
pub open spec fn continues<T: Clone>(xs: Seq<T>, y: T, row: Seq<T>) -> bool {
    &&& row.len() == xs.len() + 1
    &&& forall|k: int| 0 <= k < xs.len() ==> cloned::<T>(xs[k], #[trigger] row[k])
    &&& cloned::<T>(y, row[xs.len() as int])
}

/// Whether `row` is what row `r` of `a` times `b` is: a clone of row
/// `r / b.len()` of `a`, followed by a clone of element `r % b.len()` of `b`.
pub open spec fn product_row<T: Clone>(a: Seq<Vec<T>>, b: Seq<T>, r: int, row: Seq<T>) -> bool {
    let i = r / (b.len() as int);
    let j = r % (b.len() as int);
    &&& 0 <= i < a.len()
    &&& 0 <= j < b.len()
    &&& continues(a[i]@, b[j], row)
}

/// Whether `row` is what row `r` of the product of `lists` is: one clone
/// from each list, in the order of the lists, of the element that
/// [`pick`] names.
pub open spec fn picked_row<T: Clone>(lists: Seq<Vec<T>>, r: int, row: Seq<T>) -> bool {
    &&& row.len() == lists.len()
    &&& forall|p: int| 0 <= p < lists.len() ==> #[trigger] picked_at(lists, r, p, row[p])
}

/// Whether `x` is a clone of the element that row `r` of the product of
/// `lists` picks from list `p`.
pub open spec fn picked_at<T: Clone>(lists: Seq<Vec<T>>, r: int, p: int, x: T) -> bool {
    let k = pick(lengths(lists), r, p);
    0 <= k < lists[p]@.len() && cloned::<T>(lists[p]@[k], x)
}

/// Every row of `a` continued by every element of `b`: the rows that start
/// with the first row of `a` come first, in the order of `b`.
pub fn partial_cartesian<T: Clone>(a: Vec<Vec<T>>, b: Vec<T>) -> (out: Vec<Vec<T>>)
    ensures
        out@.len() == a@.len() * b@.len(),
        forall|r: int| 0 <= r < out@.len() ==> #[trigger] product_row(a@, b@, r, out@[r]@),
{
    let m: usize = b.len();
    let mut out: Vec<Vec<T>> = Vec::new();
    let mut i: usize = 0;
    assert(0 * m == 0) by (nonlinear_arith);
    while i < a.len()
        invariant
            i <= a.len(),
            m == b@.len(),
            out@.len() == i * m,
            forall|r: int| 0 <= r < out@.len() ==> #[trigger] product_row(a@, b@, r, out@[r]@),
        decreases a.len() - i,
    {
        let mut j: usize = 0;
        while j < m
            invariant
                i < a.len(),
                j <= m,
                m == b@.len(),
                out@.len() == i * m + j,
                forall|r: int| 0 <= r < out@.len() ==> #[trigger] product_row(a@, b@, r, out@[r]@),
            decreases m - j,
        {
            let ghost before = out@;
            let mut row: Vec<T> = a[i].clone();
            let ghost copy = row@;
            row.push(b[j].clone());
            assert(continues(a@[i as int]@, b@[j as int], row@)) by {
                assert forall|k: int| 0 <= k < a@[i as int]@.len() implies cloned::<T>(
                    a@[i as int]@[k],
                    #[trigger] row@[k],
                ) by {
                    assert(row@[k] == copy[k]);
                }
            }
            out.push(row);
            proof {
                let r = i * m + j;
                lemma_fundamental_div_mod_converse(r, m as int, i as int, j as int);
                assert(product_row(a@, b@, r, out@[r]@));
                assert forall|q: int| 0 <= q < out@.len() implies #[trigger] product_row(
                    a@,
                    b@,
                    q,
                    out@[q]@,
                ) by {
                    if q < before.len() {
                        assert(out@[q] == before[q]);
                        assert(product_row(a@, b@, q, before[q]@));
                    }
                }
            }
            j += 1;
        }
        proof {
            assert((i + 1) * m == i * m + m) by (nonlinear_arith);
        }
        i += 1;
    }
    out
}

/// The indices from 0 up to `n`, in order.
fn index_range(n: usize) -> (range: Vec<usize>)
    ensures
        range@.len() == n,
        forall|i: int| 0 <= i < n ==> range@[i] == i,
{
    let mut range: Vec<usize> = Vec::new();
    let mut k: usize = 0;
    while k < n
        invariant
            k <= n,
            range@.len() == k,
            forall|i: int| 0 <= i < k ==> range@[i] == i,
        decreases n - k,
    {
        range.push(k);
        k += 1;
    }
    range
}

/// Whether `row` holds, for each of the first `p` lists, the index that
/// row `r` picks from it.
pub open spec fn index_row(lens: Seq<nat>, p: int, r: int, row: Seq<usize>) -> bool {
    &&& row.len() == p
    &&& forall|q: int|
        0 <= q < p ==> {
            &&& (#[trigger] row[q]) == pick(lens.take(p), r, q)
            &&& row[q] < lens[q]
        }
}

/// The rows of indices of the product of lists with the lengths that
/// `lists` have.
fn index_rows<T>(lists: &Vec<Vec<T>>) -> (rows: Vec<Vec<usize>>)
    ensures
        rows@.len() == row_count(lengths(lists@)),
        forall|r: int|
            0 <= r < rows@.len() ==> #[trigger] index_row(
                lengths(lists@),
                lists@.len() as int,
                r,
                rows@[r]@,
            ),
{
    let n: usize = lists.len();
    let ghost lens = lengths(lists@);
    let mut rows: Vec<Vec<usize>> = Vec::new();
    rows.push(Vec::new());
    let mut p: usize = 0;
    assert(lens.take(0) =~= Seq::<nat>::empty());
    assert(index_row(lens, 0, 0, rows@[0]@));
    while p < n
        invariant
            p <= n,
            n == lists@.len(),
            lens == lengths(lists@),
            rows@.len() == row_count(lens.take(p as int)),
            forall|r: int|
                0 <= r < rows@.len() ==> #[trigger] index_row(lens, p as int, r, rows@[r]@),
        decreases n - p,
    {
        let ghost before = rows@;
        let size: usize = lists[p].len();
        let range: Vec<usize> = index_range(size);
        rows = partial_cartesian(rows, range);
        proof {
            let step = lens.take(p + 1);
            assert(step.drop_last() =~= lens.take(p as int));
            assert(step.last() == size);
            assert forall|r: int| 0 <= r < rows@.len() implies #[trigger] index_row(
                lens,
                p + 1,
                r,
                rows@[r]@,
            ) by {
                assert(product_row(before, range@, r, rows@[r]@));
                let i = r / (size as int);
                let j = r % (size as int);
                let prev = before[i]@;
                assert(index_row(lens, p as int, i, prev));
                assert forall|q: int| 0 <= q < p + 1 implies {
                    &&& (#[trigger] rows@[r]@[q]) == pick(step, r, q)
                    &&& rows@[r]@[q] < lens[q]
                } by {
                    if q < p {
                        assert(cloned::<usize>(prev[q], rows@[r]@[q]));
                        assert(prev[q] == pick(lens.take(p as int), i, q));
                    } else {
                        assert(cloned::<usize>(range@[j], rows@[r]@[p as int]));
                    }
                }
            }
        }
        p += 1;
    }
    assert(lens.take(n as int) =~= lens);
    rows
}

/// Computes the Cartesian product of lists[0] * lists[1] * ... * lists[n].
///
/// Each row of the result picks one element from each list, in the order
/// of the lists, and the rows are ordered so that the pick from the last
/// list changes fastest: of `[[1, 2], [4, 5], [6, 7]]` the product is
/// `[1, 4, 6]`, `[1, 4, 7]`, `[1, 5, 6]`, `[1, 5, 7]`, `[2, 4, 6]`,
/// `[2, 4, 7]`, `[2, 5, 6]`, `[2, 5, 7]`. Of no lists the product is empty.
pub fn cartesian_product<T: Clone>(lists: Vec<Vec<T>>) -> (out: Vec<Vec<T>>)
    ensures
        lists@.len() == 0 ==> out@.len() == 0,
        lists@.len() > 0 ==> out@.len() == row_count(lengths(lists@)),
        forall|r: int| 0 <= r < out@.len() ==> #[trigger] picked_row(lists@, r, out@[r]@),
{
    let n: usize = lists.len();
    if n == 0 {
        return Vec::new();
    }
    let ghost lens = lengths(lists@);
    let rows: Vec<Vec<usize>> = index_rows(&lists);
    let mut out: Vec<Vec<T>> = Vec::new();
    let mut r: usize = 0;
    while r < rows.len()
        invariant
            r <= rows.len(),
            n == lists@.len(),
            lens == lengths(lists@),
            out@.len() == r,
            forall|i: int|
                0 <= i < rows@.len() ==> #[trigger] index_row(lens, n as int, i, rows@[i]@),
            forall|i: int| 0 <= i < r ==> #[trigger] picked_row(lists@, i, out@[i]@),
        decreases rows.len() - r,
    {
        let ghost done = out@;
        let mut row: Vec<T> = Vec::new();
        let mut q: usize = 0;
        assert(index_row(lens, n as int, r as int, rows@[r as int]@));
        assert(lens.take(n as int) =~= lens);
        while q < n
            invariant
                q <= n,
                r < rows.len(),
                n == lists@.len(),
                lens == lengths(lists@),
                lens.take(n as int) == lens,
                index_row(lens, n as int, r as int, rows@[r as int]@),
                row@.len() == q,
                forall|t: int| 0 <= t < q ==> #[trigger] picked_at(lists@, r as int, t, row@[t]),
            decreases n - q,
        {
            let ghost part = row@;
            let index: usize = rows[r][q];
            assert(index == pick(lens, r as int, q as int) && index < lens[q as int]);
            row.push(lists[q][index].clone());
            assert forall|t: int| 0 <= t < q + 1 implies #[trigger] picked_at(
                lists@,
                r as int,
                t,
                row@[t],
            ) by {
                if t < q {
                    assert(row@[t] == part[t]);
                    assert(picked_at(lists@, r as int, t, part[t]));
                }
            }
            q += 1;
        }
        assert(picked_row(lists@, r as int, row@));
        out.push(row);
        assert forall|i: int| 0 <= i < r + 1 implies #[trigger] picked_row(lists@, i, out@[i]@) by {
            if i < r {
                assert(out@[i] == done[i]);
                assert(picked_row(lists@, i, done[i]@));
            }
        }
        r += 1;
    }
    out
}

} // verus!
