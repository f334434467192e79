//! The layout that gives the horizontal axis the first slot of each pair.

use super::advanced;
use super::Layout;
use super::Problem;
use super::Shape;
use super::Solution;
use crate::cost::total_cost;
use crate::filtered_slice::lemma_strictly_increasing_unique;
use crate::filtered_slice::FilteredSlice;
use vstd::prelude::*;

verus! {

/// A search over the buffer in which each horizontal coordinate stands
/// before the vertical coordinate of its pair.
#[derive(Debug)]
pub struct SearcherFirstHorizontal {
    problem: Problem,
}

impl SearcherFirstHorizontal {
    /// The search instance that this searcher drives.
    pub closed spec fn problem(&self) -> Problem {
        self.problem
    }

    /// The shape of a horizontal-first search over the given grid.
    pub open spec fn shape_of(width: u64, height: u64, nhoriz: usize, nvert: usize) -> Shape {
        Shape { first: Layout::FirstHorizontal, nhoriz, nvert, width, height }
    }

    /// A searcher over the initial buffer for `nhoriz` horizontal and
    /// `nvert` vertical cuts of a grid of the given size.
    pub fn create(width: u64, height: u64, nhoriz: usize, nvert: usize) -> (searcher: Self)
        requires
            nhoriz >= nvert,
            width > nhoriz,
            height > nvert,
            2 * nhoriz + 3 <= usize::MAX,
        ensures
            searcher.problem().well_formed(),
            searcher.problem().shape() == Self::shape_of(width, height, nhoriz, nvert),
            searcher.problem().buffer() == searcher.problem().shape().initial_buffer(),
            Self::shape_of(width, height, nhoriz, nvert).searchable() && Self::shape_of(
                width,
                height,
                nhoriz,
                nvert,
            ).seedable() ==> searcher.problem().ready(),
    {
        let shape = Shape { first: Layout::FirstHorizontal, nhoriz, nvert, width, height };
        let ghost initial = shape.initial_buffer();
        let mut caches: Vec<u64> = Vec::new();
        caches.push(0);
        let mut x: usize = 0;
        // While there are vertical caches
        while x < nvert
            invariant
                shape.valid(),
                shape == Self::shape_of(width, height, nhoriz, nvert),
                initial == shape.initial_buffer(),
                x <= nvert,
                caches@ =~= initial.take(1 + 2 * x),
            decreases nvert - x,
        {
            caches.push((2 * x + 1) as u64);
            caches.push((2 * (x + 1)) as u64);
            x = x + 1;
        }
        let mut x: usize = 0;
        // This is for horizontal ones
        while x < nhoriz - nvert
            invariant
                shape.valid(),
                shape == Self::shape_of(width, height, nhoriz, nvert),
                initial == shape.initial_buffer(),
                x <= nhoriz - nvert,
                caches@ =~= initial.take(1 + 2 * nvert + 2 * x),
            decreases nhoriz - nvert - x,
        {
            caches.push((2 * nvert + x + 1) as u64);
            caches.push(height);
            x = x + 1;
        }
        caches.push(width);
        caches.push(height);
        assert(caches@ =~= initial);

        let ghost cuts = shape.cut_slots();
        let mut valid: Vec<usize> = Vec::new();
        let mut x: usize = 0;
        while x < nvert
            invariant
                shape.valid(),
                shape == Self::shape_of(width, height, nhoriz, nvert),
                cuts == shape.cut_slots(),
                x <= nvert,
                valid@ =~= cuts.take(x as int),
            decreases nvert - x,
        {
            valid.push(2 * (x + 1));
            x = x + 1;
        }
        let mut x: usize = 0;
        while x < nhoriz
            invariant
                shape.valid(),
                shape == Self::shape_of(width, height, nhoriz, nvert),
                cuts == shape.cut_slots(),
                x <= nhoriz,
                valid@ =~= cuts.take(nvert + x),
            decreases nhoriz - x,
        {
            valid.push(2 * x + 1);
            x = x + 1;
        }
        assert(valid@ =~= cuts);

        let filtered = FilteredSlice::create(caches, valid);
        proof {
            shape.lemma_table_holds_cuts();
            lemma_strictly_increasing_unique(filtered.indices(), shape.table());
            if shape.seedable() {
                shape.lemma_initial_feasible();
            }
        }
        Self { problem: Problem { shape, filtered } }
    }

    /// Builds the initial buffer for the given grid and runs the search
    /// over it.
    pub fn solve(width: u64, height: u64, nhoriz: usize, nvert: usize) -> (solution: Solution<u64>)
        requires
            Self::shape_of(width, height, nhoriz, nvert).searchable(),
            Self::shape_of(width, height, nhoriz, nvert).seedable(),
        ensures
            solution@ == Self::shape_of(width, height, nhoriz, nvert).outcome(),
    {
        let mut searcher = Self::create(width, height, nhoriz, nvert);
        searcher.find_solution()
    }

    /// The width of the grid.
    pub fn width(&self) -> (width: u64)
        ensures
            width == self.problem().shape().width,
    {
        self.problem.width()
    }

    /// Get a reference to the problem's filtered.
    pub fn filtered(&self) -> (filtered: &FilteredSlice<u64>)
        ensures
            filtered.raw() == self.problem().buffer(),
            filtered.indices() == self.problem().exposed(),
    {
        self.problem.filtered()
    }

    /// Get a mutable reference to the problem's filtered.
    pub fn filtered_mut(&mut self) -> (filtered: &mut FilteredSlice<u64>)
        ensures
            filtered.raw() == old(self).problem().buffer(),
            filtered.indices() == old(self).problem().exposed(),
            final(self).problem().shape() == old(self).problem().shape(),
            final(self).problem().buffer() == final(filtered).raw(),
            final(self).problem().exposed() == final(filtered).indices(),
    {
        self.problem.filtered_mut()
    }

    /// The vertical cut coordinates, in order.
    pub fn vertical_caches(&self) -> (caches: Vec<u64>)
        requires
            self.problem().well_formed(),
        ensures
            caches@ == self.problem().shape().vertical_caches(self.problem().buffer()),
    {
        self.problem.vertical_caches()
    }

    /// The horizontal cut coordinates, in order.
    pub fn horizontal_caches(&self) -> (caches: Vec<u64>)
        requires
            self.problem().well_formed(),
        ensures
            caches@ == self.problem().shape().horizontal_caches(self.problem().buffer()),
    {
        self.problem.horizontal_caches()
    }

    /// Whether raising the `index`-th movable coordinate by one keeps the
    /// coordinates in order and does not raise the total cost. The buffer
    /// is left as it was.
    pub fn try_advance_index(&mut self, index: usize) -> (accepted: bool)
        requires
            old(self).problem().ready(),
            index < old(self).problem().shape().movable(),
        ensures
            final(self).problem().ready(),
            final(self).problem().shape() == old(self).problem().shape(),
            final(self).problem().buffer() == old(self).problem().buffer(),
            accepted == old(self).problem().shape().can_advance(
                old(self).problem().buffer(),
                index as int,
            ),
    {
        self.problem.try_advance_index(index)
    }

    /// Raises the `index`-th movable coordinate by one.
    pub fn advance_index(&mut self, index: usize)
        requires
            old(self).problem().ready(),
            index < old(self).problem().shape().movable(),
            old(self).problem().shape().may_step(old(self).problem().buffer(), index as int),
        ensures
            final(self).problem().ready(),
            final(self).problem().shape() == old(self).problem().shape(),
            final(self).problem().buffer() == advanced(
                old(self).problem().buffer(),
                old(self).problem().shape().position(index as int),
            ),
    {
        self.problem.advance_index(index)
    }

    /// The cost of the layout that the buffer holds.
    pub fn get_cost(&self) -> (cost: u64)
        requires
            self.problem().ready(),
        ensures
            cost == self.problem().shape().final_cost(self.problem().buffer()),
    {
        self.problem.get_cost()
    }

    /// Runs the search to its end and reads the solution out of the buffer.
    pub fn find_solution(&mut self) -> (solution: Solution<u64>)
        requires
            old(self).problem().ready(),
        ensures
            final(self).problem().ready(),
            final(self).problem().shape() == old(self).problem().shape(),
            final(self).problem().buffer() == old(self).problem().shape().search(
                old(self).problem().buffer(),
                old(self).problem().shape().movable() - 1,
                false,
            ),
            solution@ == old(self).problem().shape().solution(final(self).problem().buffer()),
            old(self).problem().shape().locally_optimal(final(self).problem().buffer()),
            total_cost(final(self).problem().buffer()) <= total_cost(
                old(self).problem().buffer(),
            ),
    {
        self.problem.find_solution()
    }
}

} // verus!
