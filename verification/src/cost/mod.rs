//! The cost model: the cost of one rectangular cell and of a whole boundary
//! sequence.

pub mod last_repeater;
pub mod orders;

use self::last_repeater::LastRepeatIter;
use self::last_repeater::sticky_item;
use itertools::Itertools;
use vstd::prelude::*;
use vstd::slice::slice_to_vec;

verus! {

/// Cost of a cell of height `height` that spans from `start` to `end`:
/// `h * w * (h + w - 2) / 2` with `w = end - start`.
pub open spec fn cell_cost(start: int, height: int, end: int) -> int {
    height * (end - start) * (height + (end - start) - 2) / 2
}

/// A cell of no width or no height costs nothing, and no cell has a negative cost.
pub proof fn lemma_cell_cost_nonnegative(start: int, height: int, end: int)
    requires
        0 <= height,
        start <= end,
    ensures
        0 <= cell_cost(start, height, end),
        (height == 0 || start == end) ==> cell_cost(start, height, end) == 0,
{
    let w = end - start;
    if height == 0 || w == 0 {
        assert(height * w == 0) by (nonlinear_arith)
            requires height == 0 || w == 0;
        assert(height * w * (height + w - 2) == 0) by (nonlinear_arith)
            requires height * w == 0;
    } else if height + w - 2 >= 0 {
        assert(height * w * (height + w - 2) >= 0) by (nonlinear_arith)
            requires height >= 0, w >= 0, height + w - 2 >= 0;
    }
}

/// The cost of the cell between `start` and `end` under a row of height `height`.
pub fn cost_sq(start: u64, height: u64, end: u64) -> (cost: u64)
    requires
        start <= end,
        cell_cost(start as int, height as int, end as int) <= u64::MAX,
    ensures
        cost == cell_cost(start as int, height as int, end as int),
{
    let w: u64 = end - start;
    let h: u64 = height;
    if w > 0 && h > 0 {
        proof {
            let hi = h as int;
            let wi = w as int;
            assert(hi * wi * (hi + wi - 2) >= 0) by (nonlinear_arith)
                requires hi >= 1, wi >= 1;
            assert(hi * wi <= 0xffff_ffff_ffff_ffff * 0xffff_ffff_ffff_ffff) by (nonlinear_arith)
                requires 0 <= hi <= 0xffff_ffff_ffff_ffff, 0 <= wi <= 0xffff_ffff_ffff_ffff;
        }
        let area: u128 = (h as u128) * (w as u128);
        let span: u128 = (h as u128) + (w as u128) - 2;
        let twice: u128 = area * span;
        (twice / 2) as u64
    } else {
        proof {
            lemma_cell_cost_nonnegative(start as int, height as int, end as int);
        }
        0
    }
}

/// Every cell of the boundary sequence has a width that is not negative:
/// each entry is at most the entry two places further on.
pub open spec fn windows_ordered(caches: Seq<u64>) -> bool {
    forall|j: int| 0 <= j && j + 2 < caches.len() ==> caches[j] <= #[trigger] caches[j + 2]
}

/// The summed cost of the cells that the consecutive triples of `caches`
/// describe.
pub open spec fn total_cost(caches: Seq<u64>) -> int
    decreases caches.len(),
{
    if caches.len() < 3 {
        0
    } else {
        let n = caches.len() as int;
        total_cost(caches.drop_last()) + cell_cost(
            caches[n - 3] as int,
            caches[n - 2] as int,
            caches[n - 1] as int,
        )
    }
}

/// The cost of a prefix is never negative and never above the cost of the whole.
pub proof fn lemma_total_cost_prefix(caches: Seq<u64>, k: int)
    requires
        windows_ordered(caches),
        0 <= k <= caches.len(),
    ensures
        0 <= total_cost(caches.take(k)) <= total_cost(caches),
    decreases caches.len(),
{
    if k == caches.len() {
        assert(caches.take(k) =~= caches);
        if caches.len() >= 3 {
            let n = caches.len() as int;
            assert(caches[n - 3] <= caches[n - 3 + 2]);
            lemma_cell_cost_nonnegative(caches[n - 3] as int, caches[n - 2] as int, caches[n - 1] as int);
            assert(caches.drop_last() =~= caches.take(n - 1));
            assert(windows_ordered(caches.drop_last())) by {
                assert forall|j: int| 0 <= j && j + 2 < caches.drop_last().len() implies
                    caches.drop_last()[j] <= #[trigger] caches.drop_last()[j + 2] by {
                    assert(caches[j] <= caches[j + 2]);
                }
            }
            lemma_total_cost_prefix(caches.drop_last(), n - 1);
            assert(caches.drop_last().take(n - 1) =~= caches.drop_last());
        }
    } else {
        let n = caches.len() as int;
        assert(windows_ordered(caches.drop_last())) by {
            assert forall|j: int| 0 <= j && j + 2 < caches.drop_last().len() implies
                caches.drop_last()[j] <= #[trigger] caches.drop_last()[j + 2] by {
                assert(caches[j] <= caches[j + 2]);
            }
        }
        lemma_total_cost_prefix(caches.drop_last(), k);
        assert(caches.drop_last().take(k) =~= caches.take(k));
        if n >= 3 {
            assert(caches[n - 3] <= caches[n - 3 + 2]);
            lemma_cell_cost_nonnegative(caches[n - 3] as int, caches[n - 2] as int, caches[n - 1] as int);
        }
    }
}

/// The consecutive triples of `caches`, in order: the `i`-th one holds the
/// entries at `i`, `i + 1` and `i + 2`. Calls `Itertools::tuple_windows`;
/// the contract is what its documentation says of windows of three.
#[verifier::external_body]
fn triple_windows(caches: &[u64]) -> (windows: Vec<(u64, u64, u64)>)
    ensures
        windows@.len() == if caches@.len() < 3 { 0 } else { caches@.len() - 2 },
        forall|i: int| 0 <= i < windows@.len() ==> windows@[i] == (caches@[i], caches@[i + 1], caches@[i + 2]),
{
    caches.iter().copied().tuple_windows().collect()
}

/// The total cost of a boundary sequence.
pub fn cost_full(caches: &[u64]) -> (cost: u64)
    requires
        windows_ordered(caches@),
        total_cost(caches@) <= u64::MAX,
    ensures
        cost == total_cost(caches@),
{
    let windows = triple_windows(caches);
    let mut cost: u64 = 0;
    let mut i: usize = 0;
    proof {
        assert(caches@.len() >= 3 ==> total_cost(caches@.take(2)) == 0);
        assert(caches@.len() < 3 ==> total_cost(caches@) == 0);
    }
    while i < windows.len()
        invariant
            i <= windows@.len(),
            windows@.len() == if caches@.len() < 3 { 0 } else { caches@.len() - 2 },
            forall|k: int| 0 <= k < windows@.len() ==> windows@[k] == (caches@[k], caches@[k + 1], caches@[k + 2]),
            windows_ordered(caches@),
            total_cost(caches@) <= u64::MAX,
            caches@.len() >= 3 ==> cost == total_cost(caches@.take(i + 2)),
            caches@.len() < 3 ==> cost == 0,
        decreases windows@.len() - i,
    {
        let (start, height, end) = windows[i];
        proof {
            let prefix = caches@.take(i + 3);
            assert(prefix.drop_last() =~= caches@.take(i + 2));
            assert(caches@[i as int] <= caches@[i + 2]);
            lemma_total_cost_prefix(caches@, i + 3);
            lemma_total_cost_prefix(caches@, i + 2);
            lemma_cell_cost_nonnegative(start as int, height as int, end as int);
        }
        cost = cost + cost_sq(start, height, end);
        i = i + 1;
    }
    proof {
        assert(caches@.len() >= 3 ==> caches@.take(i + 2) =~= caches@);
    }
    cost
}

/// The share of one axis in the cost: its last coordinate but one, and
/// nothing for an axis with fewer than two coordinates.
pub open spec fn edge_residual(axe_caches: Seq<u64>) -> int {
    if axe_caches.len() >= 2 {
        axe_caches[axe_caches.len() - 2] as int
    } else {
        0
    }
}

/// The residual of one axis.
pub fn calc_cache_costs(axe_caches: &[u64]) -> (cost: u64)
    ensures
        cost == edge_residual(axe_caches@),
{
    let n = axe_caches.len();
    if n >= 2 {
        axe_caches[n - 2]
    } else {
        0
    }
}

/// The merged boundary sequence that starts with the first axis: the
/// origin, then for each coordinate of `w` that coordinate followed by the
/// coordinate of `h` that goes with it, where `h` holds its last coordinate
/// once it has run out. Over an empty `h` only the origin is left.
pub open spec fn cache_vector_ans(w: Seq<u64>, h: Seq<u64>) -> Seq<u64> {
    if h.len() == 0 {
        seq![0u64]
    } else {
        Seq::new(
            1 + 2 * w.len(),
            |j: int|
                if j == 0 {
                    0u64
                } else if j % 2 == 1 {
                    w[(j - 1) / 2]
                } else {
                    sticky_item(h, (j - 2) / 2).unwrap()
                },
        )
    }
}

/// The merged boundary sequence that starts with the second axis: as
/// [`cache_vector_ans`], with the two coordinates of each pair swapped.
pub open spec fn cache_vector_rev(w: Seq<u64>, h: Seq<u64>) -> Seq<u64> {
    if h.len() == 0 {
        seq![0u64]
    } else {
        Seq::new(
            1 + 2 * w.len(),
            |j: int|
                if j == 0 {
                    0u64
                } else if j % 2 == 1 {
                    sticky_item(h, (j - 1) / 2).unwrap()
                } else {
                    w[(j - 2) / 2]
                },
        )
    }
}

/// The merged boundary sequence of two coordinate sequences: the axis with
/// the smaller first coordinate comes first in each pair, `h` on a tie.
pub open spec fn cache_vector(w: Seq<u64>, h: Seq<u64>) -> Seq<u64> {
    if w[0] < h[0] {
        cache_vector_ans(w, h)
    } else {
        cache_vector_rev(w, h)
    }
}

/// The cost of the grid cut at the coordinates `w` and `h`: the residual of
/// each axis and the total cost of the merged boundary sequence.
pub open spec fn grid_cost(w: Seq<u64>, h: Seq<u64>) -> int {
    edge_residual(w) + edge_residual(h) + total_cost(cache_vector(w, h))
}

/// Builds the merged boundary sequence of `w` and `h`.
pub fn create_cache_vector(w: &[u64], h: &[u64]) -> (caches: Vec<u64>)
    requires
        w@.len() >= 1,
        h@.len() >= 1,
        2 * w@.len() < usize::MAX,
    ensures
        caches@ == cache_vector(w@, h@),
{
    if w[0] < h[0] {
        create_cache_vector_ans(w, h)
    } else {
        create_cache_vector_rev(w, h)
    }
}

/// Builds the merged boundary sequence with the coordinate of `w` first in
/// each pair.
pub fn create_cache_vector_ans(w: &[u64], h: &[u64]) -> (caches: Vec<u64>)
    requires
        2 * w@.len() < usize::MAX,
    ensures
        caches@ == cache_vector_ans(w@, h@),
{
    let mut caches: Vec<u64> = Vec::new();
    caches.push(0);
    let mut held = LastRepeatIter::new(slice_to_vec(h));
    let mut i: usize = 0;
    while i < w.len()
        invariant
            i <= w@.len(),
            2 * w@.len() < usize::MAX,
            held.well_formed(),
            held.source() == h@,
            held.taken() == if i < h@.len() { i as int } else { h@.len() as int },
            h@.len() == 0 ==> caches@ =~= seq![0u64],
            h@.len() > 0 ==> caches@ =~= cache_vector_ans(w@, h@).take(1 + 2 * i),
        decreases w@.len() - i,
    {
        match held.next() {
            Some(h1) => {
                caches.push(w[i]);
                caches.push(h1);
            },
            None => {},
        }
        i = i + 1;
    }
    proof {
        if h@.len() > 0 {
            assert(cache_vector_ans(w@, h@).take(1 + 2 * i) =~= cache_vector_ans(w@, h@));
        }
    }
    caches
}

/// Builds the merged boundary sequence with the coordinate of `h` first in
/// each pair.
pub fn create_cache_vector_rev(w: &[u64], h: &[u64]) -> (caches: Vec<u64>)
    requires
        2 * w@.len() < usize::MAX,
    ensures
        caches@ == cache_vector_rev(w@, h@),
{
    let mut caches: Vec<u64> = Vec::new();
    caches.push(0);
    let mut held = LastRepeatIter::new(slice_to_vec(h));
    let mut i: usize = 0;
    while i < w.len()
        invariant
            i <= w@.len(),
            2 * w@.len() < usize::MAX,
            held.well_formed(),
            held.source() == h@,
            held.taken() == if i < h@.len() { i as int } else { h@.len() as int },
            h@.len() == 0 ==> caches@ =~= seq![0u64],
            h@.len() > 0 ==> caches@ =~= cache_vector_rev(w@, h@).take(1 + 2 * i),
        decreases w@.len() - i,
    {
        match held.next() {
            Some(h1) => {
                caches.push(h1);
                caches.push(w[i]);
            },
            None => {},
        }
        i = i + 1;
    }
    proof {
        if h@.len() > 0 {
            assert(cache_vector_rev(w@, h@).take(1 + 2 * i) =~= cache_vector_rev(w@, h@));
        }
    }
    caches
}

/// No coordinate is above a later one.
pub open spec fn ascending(coords: Seq<u64>) -> bool {
    forall|i: int, j: int| 0 <= i < j < coords.len() ==> coords[i] <= coords[j]
}

/// The merged sequence of two ascending coordinate sequences has no cell
/// of negative width, in either order.
pub proof fn lemma_ascending_windows(w: Seq<u64>, h: Seq<u64>)
    requires
        ascending(w),
        ascending(h),
    ensures
        windows_ordered(cache_vector_ans(w, h)),
        windows_ordered(cache_vector_rev(w, h)),
{
    let ans = cache_vector_ans(w, h);
    let rev = cache_vector_rev(w, h);
    assert forall|j: int| 0 <= j && j + 2 < ans.len() implies ans[j] <= #[trigger] ans[j + 2] by {
        if j > 0 {
            if j % 2 == 1 {
                assert(w[(j - 1) / 2] <= w[(j + 1) / 2]);
            } else {
                lemma_sticky_ascending(h, (j - 2) / 2, j / 2);
            }
        }
    }
    assert forall|j: int| 0 <= j && j + 2 < rev.len() implies rev[j] <= #[trigger] rev[j + 2] by {
        if j > 0 {
            if j % 2 == 1 {
                lemma_sticky_ascending(h, (j - 1) / 2, (j + 1) / 2);
            } else {
                assert(w[(j - 2) / 2] <= w[j / 2]);
            }
        }
    }
}

/// What the sticky adapter yields over an ascending source ascends too.
pub proof fn lemma_sticky_ascending(h: Seq<u64>, low: int, high: int)
    requires
        ascending(h),
        h.len() > 0,
        0 <= low <= high,
    ensures
        sticky_item(h, low).unwrap() <= sticky_item(h, high).unwrap(),
{
    let last = h.len() - 1;
    if low < h.len() && low < last {
        if high < h.len() {
            if low < high {
                assert(h[low] <= h[high]);
            }
        } else {
            assert(h[low] <= h[last]);
        }
    }
}

/// The cost of the grid whose cut coordinates along the two axes are `w`
/// and `h`, each in ascending order and ending with the length of its
/// axis.
pub fn get_cost(w: &[u64], h: &[u64]) -> (cost: u64)
    requires
        w@.len() >= h@.len(),
        h@.len() >= 1,
        ascending(w@),
        ascending(h@),
        2 * w@.len() < usize::MAX,
        grid_cost(w@, h@) <= u64::MAX,
    ensures
        cost == grid_cost(w@, h@),
{
    let cost_w = calc_cache_costs(w);
    let cost_h = calc_cache_costs(h);
    let caches = create_cache_vector(w, h);
    proof {
        lemma_ascending_windows(w@, h@);
        lemma_total_cost_prefix(caches@, caches@.len() as int);
    }
    cost_w + cost_h + cost_full(caches.as_slice())
}

} // verus!
