//! What holds of every search: the buffer stays feasible, the cost of a
//! solution is the cost of the grid cut at its coordinates, and the result
//! is a function of the inputs.

use super::Layout;
use super::Shape;
use super::SolutionView;
use super::advanced;
use super::best_outcome;
use super::horizontal::SearcherFirstHorizontal;
use super::searchable_grid;
use super::shape::last_or_zero;
use super::shape::lemma_room_advanced;
use super::shape::room;
use super::vertical::SearcherFirstVertical;
use crate::cost::ascending;
use crate::cost::cache_vector;
use crate::cost::cache_vector_ans;
use crate::cost::cache_vector_rev;
use crate::cost::cell_cost;
use crate::cost::edge_residual;
use crate::cost::grid_cost;
use crate::cost::orders::lemma_cell_cost_doubled;
use crate::cost::orders::lemma_orders_cost_alike;
use crate::cost::orders::lemma_total_cost_update;
use crate::cost::total_cost;
use vstd::prelude::*;

verus! {

/// The vertical coordinates of `solution` equal its horizontal coordinates
/// up to the place `t` and equal the height of the grid from there on.
pub open spec fn paired_until(solution: SolutionView<u64>, height: u64, t: int) -> bool {
    &&& 0 <= t <= solution.vertical_caches.len()
    &&& forall|i: int| 0 <= i < t ==> solution.horizontal_caches[i] == solution.vertical_caches[i]
    &&& forall|i: int|
        t <= i < solution.vertical_caches.len() ==> solution.vertical_caches[i] == height
}

/// The horizontal coordinates of `solution` start below its vertical
/// coordinates, the height of the grid standing in where there is no
/// vertical cut, or the vertical coordinates are paired with the
/// horizontal ones up to some place and lie on the far edge after it.
pub open spec fn starts_apart_or_paired(solution: SolutionView<u64>, height: u64) -> bool {
    ||| solution.horizontal_caches.len() > 0 && solution.horizontal_caches[0]
        < solution.vertical_caches.push(height)[0]
    ||| exists|t: int| paired_until(solution, height, t)
}

impl Shape {
    /// The search ends with a feasible buffer when it starts from one.
    pub proof fn lemma_search_feasible(self, buf: Seq<u64>, pivot: int, improved: bool)
        requires
            self.valid(),
            self.feasible(buf),
            0 <= pivot < self.movable(),
        ensures
            self.feasible(self.search(buf, pivot, improved)),
        decreases room(buf), (if improved { 1int } else { 0int }), pivot,
    {
        if self.can_advance(buf, pivot) {
            self.lemma_position_range(pivot);
            lemma_room_advanced(buf, self.position(pivot));
            self.lemma_step_feasible(buf, pivot);
            self.lemma_search_feasible(
                advanced(buf, self.position(pivot)),
                self.movable() - 1,
                true,
            );
        } else if pivot > 0 {
            self.lemma_search_feasible(buf, pivot - 1, improved);
        } else if improved {
            self.lemma_search_feasible(buf, self.movable() - 1, false);
        }
    }

    /// No movable coordinate of `buf` can advance.
    pub open spec fn locally_optimal(self, buf: Seq<u64>) -> bool {
        forall|index: int| 0 <= index < self.movable() ==> !self.can_advance(buf, index)
    }

    /// The search ends where no movable coordinate can advance. While a
    /// sweep has improved nothing, the coordinates behind the pivot are
    /// known to be stuck.
    pub proof fn lemma_search_local_optimum(self, buf: Seq<u64>, pivot: int, improved: bool)
        requires
            self.nvert <= self.nhoriz,
            buf.len() == self.slots(),
            0 <= pivot < self.movable(),
            !improved ==> forall|index: int|
                pivot < index < self.movable() ==> !self.can_advance(buf, index),
        ensures
            self.locally_optimal(self.search(buf, pivot, improved)),
        decreases room(buf), (if improved { 1int } else { 0int }), pivot,
    {
        if self.can_advance(buf, pivot) {
            self.lemma_position_range(pivot);
            lemma_room_advanced(buf, self.position(pivot));
            self.lemma_search_local_optimum(
                advanced(buf, self.position(pivot)),
                self.movable() - 1,
                true,
            );
        } else if pivot > 0 {
            self.lemma_search_local_optimum(buf, pivot - 1, improved);
        } else if improved {
            self.lemma_search_local_optimum(buf, self.movable() - 1, false);
        }
    }

    /// The search never raises the total cost and never lowers an entry:
    /// the buffer it ends with costs at most what the buffer it starts
    /// from costs, and holds at least as much in every slot.
    pub proof fn lemma_search_descends(self, buf: Seq<u64>, pivot: int, improved: bool)
        requires
            self.nvert <= self.nhoriz,
            buf.len() == self.slots(),
            0 <= pivot < self.movable(),
        ensures
            total_cost(self.search(buf, pivot, improved)) <= total_cost(buf),
            self.search(buf, pivot, improved).len() == buf.len(),
            forall|slot: int|
                0 <= slot < buf.len() ==> buf[slot] <= #[trigger] self.search(
                    buf,
                    pivot,
                    improved,
                )[slot],
        decreases room(buf), (if improved { 1int } else { 0int }), pivot,
    {
        if self.can_advance(buf, pivot) {
            self.lemma_position_range(pivot);
            lemma_room_advanced(buf, self.position(pivot));
            let after = advanced(buf, self.position(pivot));
            self.lemma_search_descends(after, self.movable() - 1, true);
            let end = self.search(buf, pivot, improved);
            assert forall|slot: int| 0 <= slot < buf.len() implies buf[slot] <= #[trigger] end[slot] by {
                assert(buf[slot] <= after[slot]);
            }
        } else if pivot > 0 {
            self.lemma_search_descends(buf, pivot - 1, improved);
        } else if improved {
            self.lemma_search_descends(buf, self.movable() - 1, false);
        }
    }

    /// A feasible buffer is the merged sequence of its own coordinates,
    /// each list closed by the length of its axis, in the order of the
    /// layout.
    pub proof fn lemma_buffer_is_merged(self, buf: Seq<u64>)
        requires
            self.valid(),
            self.feasible(buf),
        ensures
            self.first == Layout::FirstHorizontal ==> buf == cache_vector_ans(
                self.horizontal_caches(buf).push(self.width),
                self.vertical_caches(buf).push(self.height),
            ),
            self.first == Layout::FirstVertical ==> buf == cache_vector_rev(
                self.horizontal_caches(buf).push(self.width),
                self.vertical_caches(buf).push(self.height),
            ),
    {
        let w = self.horizontal_caches(buf).push(self.width);
        let h = self.vertical_caches(buf).push(self.height);
        match self.first {
            Layout::FirstHorizontal => {
                let merged = cache_vector_ans(w, h);
                assert forall|j: int| 0 <= j < buf.len() implies buf[j] == merged[j] by {
                    if j > 0 && !self.slot_movable(j) {
                        assert(buf[j] == self.axis_length(j));
                    }
                }
                assert(buf =~= merged);
            },
            Layout::FirstVertical => {
                let merged = cache_vector_rev(w, h);
                assert forall|j: int| 0 <= j < buf.len() implies buf[j] == merged[j] by {
                    if j > 0 && !self.slot_movable(j) {
                        assert(buf[j] == self.axis_length(j));
                    }
                }
                assert(buf =~= merged);
            },
        }
    }

    /// The coordinates that a feasible buffer holds ascend along each
    /// axis up to the length of that axis.
    pub proof fn lemma_coordinates_ascend(self, buf: Seq<u64>)
        requires
            self.valid(),
            self.feasible(buf),
        ensures
            ascending(self.horizontal_caches(buf).push(self.width)),
            ascending(self.vertical_caches(buf).push(self.height)),
    {
        let w = self.horizontal_caches(buf).push(self.width);
        let h = self.vertical_caches(buf).push(self.height);
        assert forall|i: int, j: int| 0 <= i < j < w.len() implies w[i] <= w[j] by {
            assert(self.slot_movable(self.horizontal_slot(i)));
            if j < self.nhoriz {
                assert(self.slot_movable(self.horizontal_slot(j)));
            }
        }
        assert forall|i: int, j: int| 0 <= i < j < h.len() implies h[i] <= h[j] by {
            assert(self.slot_movable(self.vertical_slot(i)));
            if j < self.nvert {
                assert(self.slot_movable(self.vertical_slot(j)));
            }
        }
    }

    /// The merged sequence of the coordinates that a feasible buffer holds
    /// costs what the buffer costs, for the vertical-first layout always,
    /// and for the horizontal-first layout where the coordinates start
    /// apart or are paired.
    pub proof fn lemma_merged_costs_alike(self, buf: Seq<u64>)
        requires
            self.searchable(),
            self.feasible(buf),
            self.first == Layout::FirstVertical || starts_apart_or_paired(
                self.solution(buf),
                self.height,
            ),
        ensures
            total_cost(buf) == total_cost(
                cache_vector(
                    self.horizontal_caches(buf).push(self.width),
                    self.vertical_caches(buf).push(self.height),
                ),
            ),
    {
        let w = self.horizontal_caches(buf).push(self.width);
        let h = self.vertical_caches(buf).push(self.height);
        self.lemma_buffer_is_merged(buf);
        assert(w[0] == buf[self.horizontal_slot(0)]);
        assert(w.len() == self.nhoriz + 1 && h.len() == self.nvert + 1);
        match self.first {
            Layout::FirstHorizontal => {
                if !(w[0] < h[0]) {
                    let solution = self.solution(buf);
                    let t = choose|t: int| paired_until(solution, self.height, t);
                    assert forall|i: int| 0 <= i < t implies w[i] == h[i] by {
                        assert(solution.horizontal_caches[i] == solution.vertical_caches[i]);
                    }
                    assert forall|i: int| t <= i < h.len() implies #[trigger] h[i] == h[h.len() - 1] by {
                        if i < self.nvert {
                            assert(solution.vertical_caches[i] == self.height);
                        }
                    }
                    lemma_orders_cost_alike(w, h, t);
                }
            },
            Layout::FirstVertical => {
                if w[0] < h[0] {
                    if self.nvert > 0 {
                        assert(h[0] == buf[self.vertical_slot(0)]);
                        assert(self.slot_movable(1) && self.slot_movable(2));
                        assert(buf[1] <= buf[2]);
                    }
                    lemma_orders_cost_alike(w, h, 0);
                }
            },
        }
    }

    /// The cost read out of a feasible buffer is the cost of the grid cut
    /// at the coordinates that the buffer holds, for the vertical-first
    /// layout always, and for the horizontal-first layout where the
    /// coordinates start apart or are paired.
    pub proof fn lemma_final_cost_is_grid_cost(self, buf: Seq<u64>)
        requires
            self.searchable(),
            self.feasible(buf),
            self.first == Layout::FirstVertical || starts_apart_or_paired(
                self.solution(buf),
                self.height,
            ),
        ensures
            self.final_cost(buf) == grid_cost(
                self.horizontal_caches(buf).push(self.width),
                self.vertical_caches(buf).push(self.height),
            ),
            self.solution(buf).cost == self.final_cost(buf),
            ascending(self.horizontal_caches(buf).push(self.width)),
            ascending(self.vertical_caches(buf).push(self.height)),
    {
        let w = self.horizontal_caches(buf).push(self.width);
        let h = self.vertical_caches(buf).push(self.height);
        self.lemma_coordinates_ascend(buf);
        self.lemma_merged_costs_alike(buf);
        self.lemma_final_cost_fits(buf);
        assert(edge_residual(w) == last_or_zero(self.horizontal_caches(buf)));
        assert(edge_residual(h) == last_or_zero(self.vertical_caches(buf)));
    }

    /// The cost read out of a feasible buffer fits the cost type.
    pub proof fn lemma_final_cost_fits(self, buf: Seq<u64>)
        requires
            self.searchable(),
            self.feasible(buf),
        ensures
            0 <= self.final_cost(buf) <= u64::MAX,
    {
        self.lemma_feasible_cost(buf);
        self.lemma_feasible_windows(buf);
        if self.nhoriz > 0 {
            assert(self.horizontal_caches(buf)[self.nhoriz - 1] == buf[self.horizontal_slot(
                self.nhoriz - 1,
            )]);
        }
        if self.nvert > 0 {
            assert(self.vertical_caches(buf)[self.nvert - 1] == buf[self.vertical_slot(
                self.nvert - 1,
            )]);
        }
    }

    /// The cost of the outcome of a search is the cost of the grid cut at
    /// the coordinates of that outcome, each list closed by the length of
    /// its axis: for the vertical-first layout always, and for the
    /// horizontal-first layout where the coordinates found start apart or
    /// are paired.
    pub proof fn lemma_outcome_round_trip(self)
        requires
            self.searchable(),
            self.seedable(),
            self.first == Layout::FirstVertical || starts_apart_or_paired(
                self.outcome(),
                self.height,
            ),
        ensures
            self.outcome().cost == grid_cost(
                self.outcome().horizontal_caches.push(self.width),
                self.outcome().vertical_caches.push(self.height),
            ),
            ascending(self.outcome().horizontal_caches.push(self.width)),
            ascending(self.outcome().vertical_caches.push(self.height)),
    {
        self.lemma_initial_feasible();
        self.lemma_search_feasible(self.initial_buffer(), self.movable() - 1, false);
        let buf = self.search(self.initial_buffer(), self.movable() - 1, false);
        self.lemma_final_cost_is_grid_cost(buf);
    }

    /// A step that would put a coordinate above the next coordinate of its
    /// own axis, or above the length of that axis, is never accepted.
    pub proof fn lemma_inverting_step_rejected(self, buf: Seq<u64>, index: int)
        requires
            self.valid(),
            self.feasible(buf),
            0 <= index < self.movable(),
            buf[self.position(index)] >= buf[self.position(index) + 2],
        ensures
            !self.may_step(buf, index),
            !self.can_advance(buf, index),
    {
        let slot = self.position(index);
        self.lemma_position_range(index);
        assert(self.slot_horizontal(slot) == self.slot_horizontal(slot + 2));
        if self.slot_movable(slot + 2) {
            let next = self.lemma_slot_index(slot + 2);
            assert(index < next) by {
                if next < index {
                    self.lemma_positions_ascend(next, index);
                }
            }
            if index + 1 < next {
                self.lemma_positions_ascend(index + 1, next);
            }
            self.lemma_position_range(index + 1);
            assert(buf[self.position(index + 1)] <= buf[slot + 2]);
        } else {
            assert(buf[slot + 2] == self.axis_length(slot + 2));
        }
    }

    /// A step that would make a coordinate equal to the next coordinate of
    /// its own axis, or to the length of that axis, raises the total cost
    /// and is never accepted, where the coordinate stands above the
    /// coordinate before it on that axis.
    pub proof fn lemma_equalizing_step_rejected(self, buf: Seq<u64>, index: int)
        requires
            self.valid(),
            self.feasible(buf),
            0 <= index < self.movable(),
            buf[self.position(index)] + 1 == buf[self.position(index) + 2],
            self.position(index) >= 3 ==> buf[self.position(index) - 2] < buf[self.position(
                index,
            )],
        ensures
            total_cost(advanced(buf, self.position(index))) > total_cost(buf),
            !self.can_advance(buf, index),
    {
        let s = self.position(index);
        let after = advanced(buf, s);
        self.lemma_position_range(index);
        lemma_total_cost_update(buf, after, s);
        let below = buf[s - 1] as int;
        let c = buf[s] as int;
        let above = buf[s + 1] as int;
        let v = above - below;
        // The entries around the moved one are in order.
        assert(below <= above && (s >= 2 ==> 1 <= below) && 1 <= above && 1 <= c && (below <= c
            || below == above)) by {
            assert(self.slot_horizontal(s - 1) == self.slot_horizontal(s + 1));
            assert(self.slot_movable(s));
            if self.slot_movable(s + 1) {
                assert(s >= 2 ==> self.slot_movable(s - 1));
                assert(1 <= buf[s + 1]);
            } else {
                assert(buf[s + 1] == self.axis_length(s + 1));
                if s >= 2 {
                    if self.slot_movable(s - 1) {
                        assert(1 <= buf[s - 1] <= self.axis_length(s - 1));
                    } else {
                        assert(buf[s - 1] == self.axis_length(s - 1));
                    }
                }
            }
            if s >= 2 && self.slot_movable(s - 1) {
                assert(buf[s - 1] <= buf[s]);
            }
        }
        lemma_cell_cost_doubled(below, c, above);
        lemma_cell_cost_doubled(below, c + 1, above);
        lemma_cell_cost_doubled(c, above, c + 1);
        lemma_cell_cost_doubled(c + 1, above, c + 1);
        let y = c * v;
        let mid0 = 2 * cell_cost(below, c, above);
        let mid1 = 2 * cell_cost(below, c + 1, above);
        assert(mid0 == y * (c + v - 2)) by (nonlinear_arith)
            requires mid0 == c * (above - below) * (c + (above - below) - 2), v == above - below, y == c * v;
        assert(mid1 == (y + v) * (c + v - 1)) by (nonlinear_arith)
            requires
                mid1 == (c + 1) * (above - below) * ((c + 1) + (above - below) - 2),
                v == above - below,
                y == c * v,
        ;
        assert(mid1 - mid0 == v * v - v + 2 * y) by (nonlinear_arith)
            requires mid0 == y * (c + v - 2), mid1 == (y + v) * (c + v - 1), y == c * v;
        let last0 = 2 * cell_cost(c, above, c + 1);
        let last1 = 2 * cell_cost(c + 1, above, c + 1);
        assert(last0 == above * above - above) by (nonlinear_arith)
            requires last0 == above * ((c + 1) - c) * (above + ((c + 1) - c) - 2);
        assert(last1 == 0) by (nonlinear_arith)
            requires last1 == above * ((c + 1) - (c + 1)) * (above + ((c + 1) - (c + 1)) - 2);
        assert(above * above == below * below + 2 * (below * v) + v * v) by (nonlinear_arith)
            requires above == below + v;
        assert((c - below) * v >= 0) by (nonlinear_arith)
            requires v >= 0, c >= below || v == 0;
        assert((c - below) * v == y - below * v) by (nonlinear_arith)
            requires y == c * v;
        if s >= 2 {
            let before = buf[s - 2] as int;
            let u = c - before;
            assert(u >= 1);
            lemma_cell_cost_doubled(before, below, c);
            lemma_cell_cost_doubled(before, below, c + 1);
            let x = below * u;
            let first0 = 2 * cell_cost(before, below, c);
            let first1 = 2 * cell_cost(before, below, c + 1);
            assert(first0 == x * (below + u - 2)) by (nonlinear_arith)
                requires first0 == below * (c - before) * (below + (c - before) - 2), u == c - before, x == below * u;
            assert(first1 == (x + below) * (below + u - 1)) by (nonlinear_arith)
                requires
                    first1 == below * ((c + 1) - before) * (below + ((c + 1) - before) - 2),
                    u == c - before,
                    x == below * u,
            ;
            assert(first1 - first0 == below * below - below + 2 * x) by (nonlinear_arith)
                requires
                    first0 == x * (below + u - 2),
                    first1 == (x + below) * (below + u - 1),
                    x == below * u,
            ;
            assert(x >= 1) by (nonlinear_arith)
                requires x == below * u, below >= 1, u >= 1;
        } else {
            assert(below == 0);
            assert(below * v == 0) by (nonlinear_arith)
                requires below == 0;
            assert(y >= 1) by (nonlinear_arith)
                requires y == c * v, c >= 1, v >= 1;
        }
    }

    /// Every cut coordinate in `buf` is below the next coordinate of its
    /// own axis, the length of the axis standing behind the last cut.
    pub open spec fn strictly_ordered(self, buf: Seq<u64>) -> bool {
        forall|slot: int| #[trigger] self.slot_movable(slot) ==> buf[slot] < buf[slot + 2]
    }

    /// The last seed of each axis is below the length of that axis.
    pub open spec fn strictly_seedable(self) -> bool {
        &&& self.last_vertical_seed() < self.height
        &&& self.last_horizontal_seed() < self.width
    }

    /// Where no two coordinates of an axis are equal, an accepted step
    /// makes none equal: a step to the value of the next coordinate of the
    /// same axis, or to the length of the axis, is rejected.
    pub proof fn lemma_accepted_step_keeps_strict(self, buf: Seq<u64>, index: int)
        requires
            self.valid(),
            self.feasible(buf),
            self.strictly_ordered(buf),
            0 <= index < self.movable(),
            self.can_advance(buf, index),
        ensures
            self.feasible(advanced(buf, self.position(index))),
            self.strictly_ordered(advanced(buf, self.position(index))),
    {
        let s = self.position(index);
        let after = advanced(buf, s);
        self.lemma_position_range(index);
        self.lemma_step_feasible(buf, index);
        assert(self.slot_movable(s));
        if buf[s] + 1 == buf[s + 2] {
            if s >= 3 {
                assert(self.slot_movable(s - 2));
            }
            self.lemma_equalizing_step_rejected(buf, index);
        }
        assert forall|slot: int| #[trigger] self.slot_movable(slot) implies after[slot] < after[slot
            + 2] by {
            assert(buf[slot] < buf[slot + 2]);
        }
    }

    /// The search keeps the coordinates of each axis apart when it starts
    /// with them apart.
    pub proof fn lemma_search_strict(self, buf: Seq<u64>, pivot: int, improved: bool)
        requires
            self.valid(),
            self.feasible(buf),
            self.strictly_ordered(buf),
            0 <= pivot < self.movable(),
        ensures
            self.feasible(self.search(buf, pivot, improved)),
            self.strictly_ordered(self.search(buf, pivot, improved)),
        decreases room(buf), (if improved { 1int } else { 0int }), pivot,
    {
        if self.can_advance(buf, pivot) {
            self.lemma_position_range(pivot);
            lemma_room_advanced(buf, self.position(pivot));
            self.lemma_accepted_step_keeps_strict(buf, pivot);
            self.lemma_search_strict(
                advanced(buf, self.position(pivot)),
                self.movable() - 1,
                true,
            );
        } else if pivot > 0 {
            self.lemma_search_strict(buf, pivot - 1, improved);
        } else if improved {
            self.lemma_search_strict(buf, self.movable() - 1, false);
        }
    }

    /// The seeds of each axis are apart, and below the length of the axis
    /// where the last seed is.
    pub proof fn lemma_initial_strict(self)
        requires
            self.valid(),
            self.strictly_seedable(),
        ensures
            self.feasible(self.initial_buffer()),
            self.strictly_ordered(self.initial_buffer()),
    {
        let buf = self.initial_buffer();
        self.lemma_initial_feasible();
        assert forall|slot: int| #[trigger] self.slot_movable(slot) implies buf[slot] < buf[slot
            + 2] by {
            let index = self.lemma_slot_index(slot);
            if self.slot_movable(slot + 2) {
                let next = self.lemma_slot_index(slot + 2);
            }
        }
    }

    /// Where the seeds are below the lengths of their axes, the search
    /// ends with coordinates that, on each axis, start above the origin,
    /// rise strictly and stay below the length of the axis.
    pub proof fn lemma_outcome_strict(self)
        requires
            self.searchable(),
            self.strictly_seedable(),
        ensures
            ({
                let horizontal = self.outcome().horizontal_caches;
                let vertical = self.outcome().vertical_caches;
                &&& forall|x: int| 0 <= x < horizontal.len() ==> 1 <= #[trigger] horizontal[x] < self.width
                &&& forall|x: int| 0 <= x < vertical.len() ==> 1 <= #[trigger] vertical[x] < self.height
                &&& forall|x: int, y: int| 0 <= x < y < horizontal.len() ==> horizontal[x] < horizontal[y]
                &&& forall|x: int, y: int| 0 <= x < y < vertical.len() ==> vertical[x] < vertical[y]
            }),
    {
        self.lemma_initial_strict();
        self.lemma_search_strict(self.initial_buffer(), self.movable() - 1, false);
        let buf = self.search(self.initial_buffer(), self.movable() - 1, false);
        self.lemma_strict_horizontal(buf);
        self.lemma_strict_vertical(buf);
    }

    /// The horizontal coordinates of a feasible, strictly ordered buffer
    /// start above the origin, rise strictly and stay below the width.
    pub proof fn lemma_strict_horizontal(self, buf: Seq<u64>)
        requires
            self.valid(),
            self.feasible(buf),
            self.strictly_ordered(buf),
        ensures
            forall|x: int|
                0 <= x < self.nhoriz ==> 1 <= #[trigger] self.horizontal_caches(buf)[x]
                    < self.width,
            forall|x: int, y: int|
                0 <= x < y < self.nhoriz ==> self.horizontal_caches(buf)[x]
                    < self.horizontal_caches(buf)[y],
    {
        let horizontal = self.horizontal_caches(buf);
        assert forall|x: int, y: int| 0 <= x < y < self.nhoriz implies horizontal[x]
            < horizontal[y] by {
            let low = self.horizontal_slot(x);
            assert(self.slot_movable(low));
            assert(self.slot_movable(low + 2 * (y - x - 1)));
            self.lemma_axis_rises(buf, low, y - x);
        }
        assert forall|x: int| 0 <= x < self.nhoriz implies 1 <= #[trigger] horizontal[x]
            < self.width by {
            let low = self.horizontal_slot(x);
            let steps = self.nhoriz - x;
            assert(self.slot_movable(low));
            assert(self.slot_movable(low + 2 * (steps - 1)));
            self.lemma_axis_rises(buf, low, steps);
            let end = low + 2 * steps;
            assert(!self.slot_movable(end));
            assert(buf[end] == self.axis_length(end));
        }
    }

    /// The vertical coordinates of a feasible, strictly ordered buffer
    /// start above the origin, rise strictly and stay below the height.
    pub proof fn lemma_strict_vertical(self, buf: Seq<u64>)
        requires
            self.valid(),
            self.feasible(buf),
            self.strictly_ordered(buf),
        ensures
            forall|x: int|
                0 <= x < self.nvert ==> 1 <= #[trigger] self.vertical_caches(buf)[x]
                    < self.height,
            forall|x: int, y: int|
                0 <= x < y < self.nvert ==> self.vertical_caches(buf)[x] < self.vertical_caches(
                    buf,
                )[y],
    {
        let vertical = self.vertical_caches(buf);
        assert forall|x: int, y: int| 0 <= x < y < self.nvert implies vertical[x]
            < vertical[y] by {
            let low = self.vertical_slot(x);
            assert(self.slot_movable(low));
            assert(self.slot_movable(low + 2 * (y - x - 1)));
            self.lemma_axis_rises(buf, low, y - x);
        }
        assert forall|x: int| 0 <= x < self.nvert implies 1 <= #[trigger] vertical[x]
            < self.height by {
            let low = self.vertical_slot(x);
            let steps = self.nvert - x;
            assert(self.slot_movable(low));
            assert(self.slot_movable(low + 2 * (steps - 1)));
            self.lemma_axis_rises(buf, low, steps);
            let end = low + 2 * steps;
            assert(!self.slot_movable(end));
            assert(buf[end] == self.axis_length(end));
        }
    }

    /// In a strictly ordered buffer a cut coordinate is below the one that
    /// stands `steps` places further on its axis.
    pub proof fn lemma_axis_rises(self, buf: Seq<u64>, slot: int, steps: int)
        requires
            self.strictly_ordered(buf),
            steps >= 1,
            self.slot_movable(slot),
            self.slot_movable(slot + 2 * (steps - 1)),
        ensures
            buf[slot] < buf[slot + 2 * steps],
        decreases steps,
    {
        if steps > 1 {
            assert(self.slot_movable(slot + 2 * (steps - 2)));
            self.lemma_axis_rises(buf, slot, steps - 1);
        }
        assert(self.slot_movable(slot + 2 * (steps - 1)));
    }

    /// After an accepted step the coordinates of each axis still ascend
    /// and none is above the length of its axis.
    pub proof fn lemma_accepted_step_keeps_order(self, buf: Seq<u64>, index: int)
        requires
            self.valid(),
            self.feasible(buf),
            0 <= index < self.movable(),
            self.can_advance(buf, index),
        ensures
            ({
                let after = advanced(buf, self.position(index));
                &&& self.feasible(after)
                &&& forall|x: int, y: int|
                    0 <= x <= y < self.nhoriz ==> self.horizontal_caches(after)[x]
                        <= self.horizontal_caches(after)[y]
                &&& forall|x: int, y: int|
                    0 <= x <= y < self.nvert ==> self.vertical_caches(after)[x]
                        <= self.vertical_caches(after)[y]
                &&& forall|x: int|
                    0 <= x < self.nhoriz ==> self.horizontal_caches(after)[x] <= self.width
                &&& forall|x: int|
                    0 <= x < self.nvert ==> self.vertical_caches(after)[x] <= self.height
            }),
    {
        let after = advanced(buf, self.position(index));
        self.lemma_step_feasible(buf, index);
        assert forall|x: int, y: int| 0 <= x <= y < self.nhoriz implies self.horizontal_caches(
            after,
        )[x] <= self.horizontal_caches(after)[y] by {
            assert(self.slot_movable(self.horizontal_slot(x)));
            assert(self.slot_movable(self.horizontal_slot(y)));
        }
        assert forall|x: int, y: int| 0 <= x <= y < self.nvert implies self.vertical_caches(
            after,
        )[x] <= self.vertical_caches(after)[y] by {
            assert(self.slot_movable(self.vertical_slot(x)));
            assert(self.slot_movable(self.vertical_slot(y)));
        }
        assert forall|x: int| 0 <= x < self.nhoriz implies self.horizontal_caches(after)[x]
            <= self.width by {
            assert(self.slot_movable(self.horizontal_slot(x)));
        }
        assert forall|x: int| 0 <= x < self.nvert implies self.vertical_caches(after)[x]
            <= self.height by {
            assert(self.slot_movable(self.vertical_slot(x)));
        }
    }
}

/// The cost of the solution that the search over both layouts returns is
/// the cost of the grid cut at its coordinates, each list closed by the
/// length of its axis, where the solution is the outcome of the
/// vertical-first layout or its coordinates start apart or are paired.
pub proof fn lemma_best_round_trip(width: u64, height: u64, nhoriz: usize, nvert: usize)
    requires
        searchable_grid(width, height, nhoriz, nvert),
        best_outcome(width, height, nhoriz, nvert) == SearcherFirstVertical::shape_of(
            width,
            height,
            nhoriz,
            nvert,
        ).outcome() || starts_apart_or_paired(best_outcome(width, height, nhoriz, nvert), height),
    ensures
        best_outcome(width, height, nhoriz, nvert).cost == grid_cost(
            best_outcome(width, height, nhoriz, nvert).horizontal_caches.push(width),
            best_outcome(width, height, nhoriz, nvert).vertical_caches.push(height),
        ),
        ascending(best_outcome(width, height, nhoriz, nvert).horizontal_caches.push(width)),
        ascending(best_outcome(width, height, nhoriz, nvert).vertical_caches.push(height)),
{
    let first = SearcherFirstHorizontal::shape_of(width, height, nhoriz, nvert);
    let second = SearcherFirstVertical::shape_of(width, height, nhoriz, nvert);
    if best_outcome(width, height, nhoriz, nvert) == second.outcome() {
        second.lemma_outcome_round_trip();
    } else {
        first.lemma_outcome_round_trip();
    }
}

/// Two searches over the same grid with the same cut counts return the
/// same solution.
pub proof fn lemma_search_deterministic(
    width: u64,
    height: u64,
    nhoriz: usize,
    nvert: usize,
    once: SolutionView<u64>,
    again: SolutionView<u64>,
)
    requires
        once == best_outcome(width, height, nhoriz, nvert),
        again == best_outcome(width, height, nhoriz, nvert),
    ensures
        once == again,
{
}

} // verus!
