//! The local search for cheap cut positions, over a boundary buffer laid out
//! in one of two orders.

pub mod horizontal;
pub mod laws;
pub mod ordering;
pub mod shape;
pub mod vertical;

pub use self::shape::advanced;
pub use self::shape::Layout;
pub use self::shape::Shape;
pub use self::shape::MAX_WIDTH;

use self::horizontal::SearcherFirstHorizontal;
use self::shape::lemma_room_advanced;
use self::shape::room;
use self::vertical::SearcherFirstVertical;
use crate::cost::cost_full;
use crate::cost::total_cost;
use crate::filtered_slice::FilteredSlice;
use vstd::prelude::*;

verus! {

/// What a search found: the cost and the cut coordinates along each axis,
/// without the lengths of the axes.
#[derive(Debug, PartialEq, Eq)]
pub struct Solution<N> {
    cost: u64,
    vertical_caches: Vec<N>,
    horizontal_caches: Vec<N>,
}

/// The mathematical content of a [`Solution`].
pub ghost struct SolutionView<N> {
    pub cost: u64,
    pub vertical_caches: Seq<N>,
    pub horizontal_caches: Seq<N>,
}

impl<N> View for Solution<N> {
    type V = SolutionView<N>;

    closed spec fn view(&self) -> SolutionView<N> {
        SolutionView {
            cost: self.cost,
            vertical_caches: self.vertical_caches@,
            horizontal_caches: self.horizontal_caches@,
        }
    }
}

impl<N> Solution<N> {
    /// Get the solution's cost.
    pub fn cost(&self) -> (cost: u64)
        ensures
            cost == self@.cost,
    {
        self.cost
    }

    /// Get a reference to the solution's vertical caches.
    pub fn vertical_caches(&self) -> (caches: &[N])
        ensures
            caches@ == self@.vertical_caches,
    {
        self.vertical_caches.as_slice()
    }

    /// Get a reference to the solution's horizontal caches.
    pub fn horizontal_caches(&self) -> (caches: &[N])
        ensures
            caches@ == self@.horizontal_caches,
    {
        self.horizontal_caches.as_slice()
    }
}

/// One search instance: its shape and its boundary buffer, seen through
/// the view of the movable coordinates.
#[derive(Debug)]
pub struct Problem {
    shape: Shape,
    filtered: FilteredSlice<u64>,
}

impl Problem {
    /// The fixed data of the search.
    pub closed spec fn shape(&self) -> Shape {
        self.shape
    }

    /// The whole boundary buffer.
    pub closed spec fn buffer(&self) -> Seq<u64> {
        self.filtered.raw()
    }

    /// The slots that the view of the movable coordinates exposes.
    pub closed spec fn exposed(&self) -> Seq<usize> {
        self.filtered.indices()
    }

    /// The shape is valid, the buffer has its length, and the view exposes
    /// exactly the movable slots.
    pub open spec fn well_formed(&self) -> bool {
        &&& self.shape().valid()
        &&& self.buffer().len() == self.shape().slots()
        &&& self.exposed() == self.shape().table()
    }

    /// The problem is well formed, its shape can be searched and its
    /// buffer is feasible.
    pub open spec fn ready(&self) -> bool {
        &&& self.well_formed()
        &&& self.shape().searchable()
        &&& self.shape().feasible(self.buffer())
    }

    /// The width of the grid.
    pub fn width(&self) -> (width: u64)
        ensures
            width == self.shape().width,
    {
        self.shape.width
    }

    /// Get a reference to the problem's filtered.
    pub fn filtered(&self) -> (filtered: &FilteredSlice<u64>)
        ensures
            filtered.raw() == self.buffer(),
            filtered.indices() == self.exposed(),
    {
        &self.filtered
    }

    /// Get a mutable reference to the problem's filtered.
    pub fn filtered_mut(&mut self) -> (filtered: &mut FilteredSlice<u64>)
        ensures
            filtered.raw() == old(self).buffer(),
            filtered.indices() == old(self).exposed(),
            final(self).shape() == old(self).shape(),
            final(self).buffer() == final(filtered).raw(),
            final(self).exposed() == final(filtered).indices(),
    {
        &mut self.filtered
    }

    /// The length of the axis of the `index`-th movable coordinate.
    fn bound(&self, index: usize) -> (bound: u64)
        requires
            self.well_formed(),
            index < self.shape().movable(),
        ensures
            bound == self.shape().axis_length(self.shape().position(index as int)),
    {
        let vertical = index < 2 * self.shape.nvert && match self.shape.first {
            Layout::FirstHorizontal => index % 2 == 1,
            Layout::FirstVertical => index % 2 == 0,
        };
        if vertical {
            self.shape.height
        } else {
            self.shape.width
        }
    }

    /// Whether raising the `index`-th movable coordinate by one keeps the
    /// coordinates in order and does not raise the total cost. The buffer
    /// is left as it was.
    pub fn try_advance_index(&mut self, index: usize) -> (accepted: bool)
        requires
            old(self).ready(),
            index < old(self).shape().movable(),
        ensures
            final(self).ready(),
            final(self).shape() == old(self).shape(),
            final(self).buffer() == old(self).buffer(),
            accepted == old(self).shape().can_advance(old(self).buffer(), index as int),
    {
        proof {
            self.shape.lemma_position_range(index as int);
            if index + 1 < self.shape.movable() {
                self.shape.lemma_position_range(index + 1);
            }
        }
        let prev = *self.filtered.get(index);
        if prev >= self.bound(index) || (index + 1 < self.filtered.len() && prev
            >= *self.filtered.get(index + 1)) {
            return false;
        }
        proof {
            self.shape.lemma_step_feasible(self.buffer(), index as int);
            self.shape.lemma_feasible_windows(self.buffer());
            self.shape.lemma_feasible_cost(self.buffer());
            let after = advanced(self.buffer(), self.shape.position(index as int));
            self.shape.lemma_feasible_windows(after);
            self.shape.lemma_feasible_cost(after);
        }
        let cost = cost_full(self.filtered.get_raw_ref().as_slice());
        self.filtered.set(index, prev + 1);
        let new_cost = cost_full(self.filtered.get_raw_ref().as_slice());
        self.filtered.set(index, prev);
        proof {
            assert(self.buffer() =~= old(self).buffer());
        }
        new_cost <= cost
    }

    /// Raises the `index`-th movable coordinate by one.
    pub fn advance_index(&mut self, index: usize)
        requires
            old(self).ready(),
            index < old(self).shape().movable(),
            old(self).shape().may_step(old(self).buffer(), index as int),
        ensures
            final(self).ready(),
            final(self).shape() == old(self).shape(),
            final(self).buffer() == advanced(
                old(self).buffer(),
                old(self).shape().position(index as int),
            ),
    {
        proof {
            self.shape.lemma_position_range(index as int);
            self.shape.lemma_step_feasible(self.buffer(), index as int);
        }
        let prev = *self.filtered.get(index);
        self.filtered.set(index, prev + 1);
    }

    /// The vertical cut coordinates, in order.
    pub fn vertical_caches(&self) -> (caches: Vec<u64>)
        requires
            self.well_formed(),
        ensures
            caches@ == self.shape().vertical_caches(self.buffer()),
    {
        let raw = self.filtered.get_raw_ref();
        let mut caches: Vec<u64> = Vec::new();
        let mut x: usize = 0;
        while x < self.shape.nvert
            invariant
                self.well_formed(),
                raw@ == self.buffer(),
                x <= self.shape.nvert,
                caches@ =~= self.shape.vertical_caches(self.buffer()).take(x as int),
            decreases self.shape.nvert - x,
        {
            let slot = match self.shape.first {
                Layout::FirstHorizontal => 2 * (x + 1),
                Layout::FirstVertical => 2 * x + 1,
            };
            caches.push(raw[slot]);
            x = x + 1;
        }
        caches
    }

    /// The horizontal cut coordinates, in order.
    pub fn horizontal_caches(&self) -> (caches: Vec<u64>)
        requires
            self.well_formed(),
        ensures
            caches@ == self.shape().horizontal_caches(self.buffer()),
    {
        let raw = self.filtered.get_raw_ref();
        let mut caches: Vec<u64> = Vec::new();
        let mut x: usize = 0;
        while x < self.shape.nhoriz
            invariant
                self.well_formed(),
                raw@ == self.buffer(),
                x <= self.shape.nhoriz,
                caches@ =~= self.shape.horizontal_caches(self.buffer()).take(x as int),
            decreases self.shape.nhoriz - x,
        {
            let slot = match self.shape.first {
                Layout::FirstHorizontal => 2 * x + 1,
                Layout::FirstVertical => 2 * (x + 1),
            };
            caches.push(raw[slot]);
            x = x + 1;
        }
        caches
    }

    /// The cost of the layout that the buffer holds.
    pub fn get_cost(&self) -> (cost: u64)
        requires
            self.ready(),
        ensures
            cost == self.shape().final_cost(self.buffer()),
    {
        let horizontal = self.horizontal_caches();
        let vertical = self.vertical_caches();
        let last_horizontal = if horizontal.len() > 0 {
            horizontal[horizontal.len() - 1]
        } else {
            0
        };
        let last_vertical = if vertical.len() > 0 {
            vertical[vertical.len() - 1]
        } else {
            0
        };
        proof {
            self.shape.lemma_feasible_windows(self.buffer());
            self.shape.lemma_feasible_cost(self.buffer());
        }
        let cache_costs: u64 = last_horizontal + last_vertical;
        cache_costs + cost_full(self.filtered.get_raw_ref().as_slice())
    }

    /// Runs the search to its end and reads the solution out of the buffer.
    pub fn find_solution(&mut self) -> (solution: Solution<u64>)
        requires
            old(self).ready(),
        ensures
            final(self).ready(),
            final(self).shape() == old(self).shape(),
            final(self).buffer() == old(self).shape().search(
                old(self).buffer(),
                old(self).shape().movable() - 1,
                false,
            ),
            solution@ == old(self).shape().solution(final(self).buffer()),
            old(self).shape().locally_optimal(final(self).buffer()),
            total_cost(final(self).buffer()) <= total_cost(old(self).buffer()),
    {
        proof {
            let shape = self.shape();
            shape.lemma_search_local_optimum(self.buffer(), shape.movable() - 1, false);
            shape.lemma_search_descends(self.buffer(), shape.movable() - 1, false);
        }
        let last = self.filtered.len() - 1;
        let mut improves = false;
        let mut pivot = last;
        let mut done = false;
        while !done
            invariant
                self.ready(),
                self.shape() == old(self).shape(),
                last == self.shape().movable() - 1,
                pivot <= last,
                !done ==> self.shape().search(self.buffer(), pivot as int, improves) == old(
                    self,
                ).shape().search(old(self).buffer(), last as int, false),
                done ==> self.buffer() == old(self).shape().search(
                    old(self).buffer(),
                    last as int,
                    false,
                ),
            decreases
                    room(self.buffer()),
                    (if improves { 1int } else { 0int }),
                    pivot,
                    (if done { 0int } else { 1int }),
        {
            if self.try_advance_index(pivot) {
                proof {
                    self.shape.lemma_position_range(pivot as int);
                    lemma_room_advanced(self.buffer(), self.shape.position(pivot as int));
                }
                self.advance_index(pivot);
                improves = true;
                pivot = last;
            } else if pivot > 0 {
                pivot = pivot - 1;
            } else {
                if !improves {
                    done = true;
                } else {
                    pivot = last;
                    improves = false;
                }
            }
        }
        let cost = self.get_cost();
        proof {
            self.shape.lemma_feasible_cost(self.buffer());
            self.shape.lemma_feasible_windows(self.buffer());
        }
        Solution {
            cost,
            vertical_caches: self.vertical_caches(),
            horizontal_caches: self.horizontal_caches(),
        }
    }
}

/// The grid and the cut counts can be searched in both layouts: there are
/// at least as many horizontal cuts as vertical ones and at least one cut,
/// the grid is at least as wide as it is tall and no wider than
/// [`MAX_WIDTH`], and the seeds of both layouts fit the grid.
pub open spec fn searchable_grid(width: u64, height: u64, nhoriz: usize, nvert: usize) -> bool {
    &&& 1 <= nhoriz
    &&& nvert <= nhoriz
    &&& nhoriz < width
    &&& nvert < height
    &&& height <= width
    &&& width <= MAX_WIDTH
    &&& 2 * nvert <= height
    &&& nhoriz + nvert <= width
}

/// The cheaper of the outcomes of the two layouts, the horizontal-first
/// one where both cost the same.
pub open spec fn best_outcome(width: u64, height: u64, nhoriz: usize, nvert: usize) -> SolutionView<u64> {
    let first = SearcherFirstHorizontal::shape_of(width, height, nhoriz, nvert).outcome();
    let second = SearcherFirstVertical::shape_of(width, height, nhoriz, nvert).outcome();
    if first.cost <= second.cost {
        first
    } else {
        second
    }
}

/// Whether the grid and the cut counts can be searched in both layouts.
pub fn is_searchable_grid(width: u64, height: u64, nhoriz: usize, nvert: usize) -> (ok: bool)
    ensures
        ok == searchable_grid(width, height, nhoriz, nvert),
{
    if nhoriz < 1 || nvert > nhoriz || height > width || width > MAX_WIDTH {
        return false;
    }
    let horizontal: u64 = nhoriz as u64;
    let vertical: u64 = nvert as u64;
    horizontal < width && vertical < height && 2 * vertical <= height && horizontal + vertical
        <= width
}

/// The solutions of the horizontal-first and of the vertical-first search,
/// in this order. Calls `rayon::join`, which runs its two closures,
/// possibly in parallel, and returns the pair of their results; each
/// closure is one call of the verified search of its layout.
#[verifier::external_body]
fn join_searches(width: u64, height: u64, nhoriz: usize, nvert: usize) -> (solutions: (
    Solution<u64>,
    Solution<u64>,
))
    requires
        searchable_grid(width, height, nhoriz, nvert),
    ensures
        solutions.0@ == SearcherFirstHorizontal::shape_of(width, height, nhoriz, nvert).outcome(),
        solutions.1@ == SearcherFirstVertical::shape_of(width, height, nhoriz, nvert).outcome(),
{
    rayon::join(
        || SearcherFirstHorizontal::solve(width, height, nhoriz, nvert),
        || SearcherFirstVertical::solve(width, height, nhoriz, nvert),
    )
}

/// Searches the grid in both layouts and returns the cheaper solution.
pub fn get_cache_locations(width: u64, height: u64, nhoriz: usize, nvert: usize) -> (solution:
    Solution<u64>)
    requires
        searchable_grid(width, height, nhoriz, nvert),
    ensures
        solution@ == best_outcome(width, height, nhoriz, nvert),
{
    proof {
        lemma_searchable_grid_shapes(width, height, nhoriz, nvert);
    }
    let (sol_horiz, sol_vert) = join_searches(width, height, nhoriz, nvert);
    if sol_horiz <= sol_vert {
        sol_horiz
    } else {
        sol_vert
    }
}

/// The two layouts of a searchable grid meet what their searches require.
pub proof fn lemma_searchable_grid_shapes(width: u64, height: u64, nhoriz: usize, nvert: usize)
    requires
        searchable_grid(width, height, nhoriz, nvert),
    ensures
        SearcherFirstHorizontal::shape_of(width, height, nhoriz, nvert).searchable(),
        SearcherFirstHorizontal::shape_of(width, height, nhoriz, nvert).seedable(),
        SearcherFirstVertical::shape_of(width, height, nhoriz, nvert).searchable(),
        SearcherFirstVertical::shape_of(width, height, nhoriz, nvert).seedable(),
{
}

} // verus!
