//! The two orders of the merged boundary sequence, and when they cost the
//! same.

use super::cache_vector_ans;
use super::cache_vector_rev;
use super::cell_cost;
use super::last_repeater::sticky_item;
use super::total_cost;
use vstd::prelude::*;

verus! {

/// Twice the cost of a cell is the product of its height, its width and
/// their sum less two: the product is even.
pub proof fn lemma_cell_cost_doubled(start: int, height: int, end: int)
    ensures
        2 * cell_cost(start, height, end) == height * (end - start) * (height + (end - start) - 2),
{
    let h = height;
    let w = end - start;
    let product = h * w * (h + w - 2);
    if h % 2 == 0 {
        let k = h / 2;
        assert(product == 2 * (k * w * (h + w - 2))) by (nonlinear_arith)
            requires h == 2 * k, product == h * w * (h + w - 2);
    } else if w % 2 == 0 {
        let k = w / 2;
        assert(product == 2 * (h * k * (h + w - 2))) by (nonlinear_arith)
            requires w == 2 * k, product == h * w * (h + w - 2);
    } else {
        let k = (h + w - 2) / 2;
        assert(product == 2 * (h * w * k)) by (nonlinear_arith)
            requires h + w - 2 == 2 * k, product == h * w * (h + w - 2);
    }
}

/// A cell that starts at the origin costs the same with its height and its
/// width exchanged.
pub proof fn lemma_cell_cost_symmetric(height: int, width: int)
    ensures
        cell_cost(0, height, width) == height * width * (height + width - 2) / 2,
        cell_cost(0, height, width) == cell_cost(0, width, height),
{
    assert(height * width * (height + width - 2) == width * height * (width + height - 2))
        by (nonlinear_arith);
}

/// A square corner of side `corner` followed by a strip up to `x` and a
/// strip up to `y` costs the same whichever strip comes first.
pub proof fn lemma_corner_strips_commute(corner: int, x: int, y: int)
    ensures
        cell_cost(corner, corner, x) + cell_cost(corner, x, y) == cell_cost(corner, corner, y)
            + cell_cost(corner, y, x),
{
    let a = corner;
    lemma_cell_cost_doubled(a, a, x);
    lemma_cell_cost_doubled(a, x, y);
    lemma_cell_cost_doubled(a, a, y);
    lemma_cell_cost_doubled(a, y, x);
    let p = x - a;
    let q = y - a;
    let s = a + p + q - 2;
    let ap = a * p;
    let aq = a * q;
    let pq = p * q;
    assert(ap * (a + p - 2) == ap * s - ap * q) by (nonlinear_arith)
        requires s == a + p + q - 2;
    assert(aq * (a + q - 2) == aq * s - aq * p) by (nonlinear_arith)
        requires s == a + p + q - 2;
    assert(ap * q == aq * p) by (nonlinear_arith)
        requires ap == a * p, aq == a * q;
    assert(x * q == aq + pq) by (nonlinear_arith)
        requires x == a + p, aq == a * q, pq == p * q;
    assert(y * p == ap + pq) by (nonlinear_arith)
        requires y == a + q, ap == a * p, pq == p * q;
    assert((aq + pq) * s == aq * s + pq * s) by (nonlinear_arith);
    assert((ap + pq) * s == ap * s + pq * s) by (nonlinear_arith);
    assert(x + q - 2 == s && y + p - 2 == s);
}

/// The cost of a prefix of at least three entries is the cost of the
/// prefix without its last entry and of the cell that the last three
/// entries describe.
pub proof fn lemma_total_cost_step(caches: Seq<u64>, n: int)
    requires
        3 <= n <= caches.len(),
    ensures
        total_cost(caches.take(n)) == total_cost(caches.take(n - 1)) + cell_cost(
            caches[n - 3] as int,
            caches[n - 2] as int,
            caches[n - 1] as int,
        ),
{
    assert(caches.take(n).drop_last() =~= caches.take(n - 1));
}

/// The merged sequence costs the same in both orders where `h` equals `w`
/// up to some place and holds its last coordinate from that place on.
pub proof fn lemma_orders_cost_alike(w: Seq<u64>, h: Seq<u64>, t: int)
    requires
        1 <= h.len() <= w.len(),
        0 <= t < h.len(),
        forall|i: int| 0 <= i < t ==> w[i] == h[i],
        forall|i: int| t <= i < h.len() ==> #[trigger] h[i] == h[h.len() - 1],
    ensures
        total_cost(cache_vector_ans(w, h)) == total_cost(cache_vector_rev(w, h)),
{
    let ans = cache_vector_ans(w, h);
    let rev = cache_vector_rev(w, h);
    let k = w.len() as int;
    lemma_orders_alike_upto(w, h, t, k - 1);
    assert(ans.take(2 * (k - 1) + 3) =~= ans);
    assert(rev.take(2 * (k - 1) + 3) =~= rev);
}

/// The prefixes of the two orders that end with the pair of `w[m]` cost
/// the same, from the place `t` on.
proof fn lemma_orders_alike_upto(w: Seq<u64>, h: Seq<u64>, t: int, m: int)
    requires
        1 <= h.len() <= w.len(),
        0 <= t < h.len(),
        forall|i: int| 0 <= i < t ==> w[i] == h[i],
        forall|i: int| t <= i < h.len() ==> #[trigger] h[i] == h[h.len() - 1],
        t <= m < w.len(),
    ensures
        total_cost(cache_vector_ans(w, h).take(2 * m + 3)) == total_cost(
            cache_vector_rev(w, h).take(2 * m + 3),
        ),
    decreases m,
{
    let ans = cache_vector_ans(w, h);
    let rev = cache_vector_rev(w, h);
    let top = h[h.len() - 1];
    assert(sticky_item(h, m) == Some(top)) by {
        if m < h.len() {
            assert(h[m] == top);
        }
    }
    lemma_total_cost_step(ans, 2 * m + 3);
    lemma_total_cost_step(rev, 2 * m + 3);
    assert(ans[2 * m + 1] == w[m]);
    assert(ans[2 * m + 2] == top);
    assert(rev[2 * m + 1] == top);
    assert(rev[2 * m + 2] == w[m]);
    if m == 0 {
        assert(total_cost(ans.take(2)) == 0);
        assert(total_cost(rev.take(2)) == 0);
        lemma_cell_cost_symmetric(w[0] as int, top as int);
    } else {
        lemma_total_cost_step(ans, 2 * m + 2);
        lemma_total_cost_step(rev, 2 * m + 2);
        assert(ans[2 * m - 1] == w[m - 1]);
        assert(rev[2 * m] == w[m - 1]);
        if m == t {
            let corner = w[m - 1];
            assert(h[m - 1] == corner);
            assert(sticky_item(h, m - 1) == Some(corner));
            assert(ans[2 * m] == corner);
            assert(rev[2 * m - 1] == corner);
            assert(ans.take(2 * m + 1) =~= rev.take(2 * m + 1)) by {
                assert forall|j: int| 0 <= j < 2 * m + 1 implies ans[j] == rev[j] by {
                    if j > 0 {
                        if j % 2 == 1 {
                            assert(w[(j - 1) / 2] == h[(j - 1) / 2]);
                        } else {
                            assert(w[(j - 2) / 2] == h[(j - 2) / 2]);
                        }
                    }
                }
            }
            lemma_corner_strips_commute(corner as int, w[m] as int, top as int);
        } else {
            assert(sticky_item(h, m - 1) == Some(top)) by {
                if m - 1 < h.len() {
                    assert(h[m - 1] == top);
                }
            }
            assert(ans[2 * m] == top);
            assert(rev[2 * m - 1] == top);
            lemma_orders_alike_upto(w, h, t, m - 1);
            assert(cell_cost(top as int, w[m] as int, top as int) == 0) by (nonlinear_arith)
                requires
                    cell_cost(top as int, w[m] as int, top as int) == w[m] * (top - top) * (w[m]
                        + (top - top) - 2) / 2,
            ;
            assert(cell_cost(top as int, w[m - 1] as int, top as int) == 0) by (nonlinear_arith)
                requires
                    cell_cost(top as int, w[m - 1] as int, top as int) == w[m - 1] * (top - top)
                        * (w[m - 1] + (top - top) - 2) / 2,
            ;
        }
    }
}

/// Two sequences that agree but for the entry at `s` differ in cost by
/// what the cells that hold that entry differ.
pub proof fn lemma_total_cost_update(a: Seq<u64>, b: Seq<u64>, s: int)
    requires
        a.len() == b.len(),
        1 <= s,
        s + 2 < a.len(),
        forall|j: int| 0 <= j < a.len() && j != s ==> a[j] == b[j],
    ensures
        total_cost(b) - total_cost(a) == (if s >= 2 {
            cell_cost(b[s - 2] as int, b[s - 1] as int, b[s] as int) - cell_cost(
                a[s - 2] as int,
                a[s - 1] as int,
                a[s] as int,
            )
        } else {
            0
        }) + (cell_cost(b[s - 1] as int, b[s] as int, b[s + 1] as int) - cell_cost(
            a[s - 1] as int,
            a[s] as int,
            a[s + 1] as int,
        )) + (cell_cost(b[s] as int, b[s + 1] as int, b[s + 2] as int) - cell_cost(
            a[s] as int,
            a[s + 1] as int,
            a[s + 2] as int,
        )),
{
    assert(a.take(s) =~= b.take(s));
    if s >= 2 {
        lemma_total_cost_step(a, s + 1);
        lemma_total_cost_step(b, s + 1);
    } else {
        assert(total_cost(a.take(2)) == 0);
        assert(total_cost(b.take(2)) == 0);
    }
    lemma_total_cost_step(a, s + 2);
    lemma_total_cost_step(b, s + 2);
    lemma_total_cost_step(a, s + 3);
    lemma_total_cost_step(b, s + 3);
    lemma_total_cost_tail(a, b, s, a.len() as int);
    assert(a.take(a.len() as int) =~= a);
    assert(b.take(b.len() as int) =~= b);
}

/// Past the cells that hold the entry at `s`, the prefixes of the two
/// sequences differ in cost by the same amount.
proof fn lemma_total_cost_tail(a: Seq<u64>, b: Seq<u64>, s: int, n: int)
    requires
        a.len() == b.len(),
        0 <= s,
        s + 3 <= n <= a.len(),
        forall|j: int| 0 <= j < a.len() && j != s ==> a[j] == b[j],
    ensures
        total_cost(b.take(n)) - total_cost(a.take(n)) == total_cost(b.take(s + 3)) - total_cost(
            a.take(s + 3),
        ),
    decreases n,
{
    if n > s + 3 {
        lemma_total_cost_tail(a, b, s, n - 1);
        lemma_total_cost_step(a, n);
        lemma_total_cost_step(b, n);
    }
}

} // verus!
