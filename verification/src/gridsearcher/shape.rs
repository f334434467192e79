//! The shape of a search: how the boundary buffer is laid out, which of
//! its slots move, and what the search does to it.

use super::SolutionView;
use crate::cost::cell_cost;
use crate::cost::lemma_cell_cost_nonnegative;
use crate::cost::lemma_total_cost_prefix;
use crate::cost::total_cost;
use crate::cost::windows_ordered;
use crate::filtered_slice::strictly_increasing;
use vstd::prelude::*;

verus! {

/// The widest grid whose costs are sure to fit the cost type.
pub const MAX_WIDTH: u64 = 2_097_151;

/// Which axis holds the first slot of each pair of the boundary buffer.
#[derive(Clone, Copy, Debug, PartialEq, Eq)]
pub enum Layout {
    FirstHorizontal,
    FirstVertical,
}

/// The fixed data of one search: the grid, the number of cuts along each
/// axis and the order of the buffer.
///
/// The buffer has `2 * nhoriz + 3` slots. Slot 0 is the origin. From slot 1
/// on the slots alternate between the two axes, the axis named by `first` in
/// the odd ones. The first `nhoriz` slots of the horizontal axis and the
/// first `nvert` slots of the vertical axis are movable cut coordinates; each
/// slot after them holds the length of its axis.
#[derive(Clone, Copy, Debug)]
pub struct Shape {
    pub first: Layout,
    pub nhoriz: usize,
    pub nvert: usize,
    pub width: u64,
    pub height: u64,
}

/// How far the entries of `buf` are, taken together, from the largest value
/// an entry can hold.
pub open spec fn room(buf: Seq<u64>) -> nat
    decreases buf.len(),
{
    if buf.len() == 0 {
        0
    } else {
        room(buf.drop_last()) + (u64::MAX - buf[buf.len() - 1]) as nat
    }
}

/// `buf` with the entry at `slot` raised by one.
pub open spec fn advanced(buf: Seq<u64>, slot: int) -> Seq<u64> {
    buf.update(slot, (buf[slot] + 1) as u64)
}

/// Raising one entry by one takes one from the room.
pub proof fn lemma_room_advanced(buf: Seq<u64>, slot: int)
    requires
        0 <= slot < buf.len(),
        buf[slot] < u64::MAX,
    ensures
        room(advanced(buf, slot)) + 1 == room(buf),
    decreases buf.len(),
{
    let after = advanced(buf, slot);
    if slot == buf.len() - 1 {
        assert(after.drop_last() =~= buf.drop_last());
    } else {
        lemma_room_advanced(buf.drop_last(), slot);
        assert(after.drop_last() =~= advanced(buf.drop_last(), slot));
    }
}

/// A cell whose height and width are at most `limit` costs at most `limit`
/// squared for each unit of its width.
pub proof fn lemma_cell_cost_bound(start: int, height: int, end: int, limit: int)
    requires
        0 <= start <= end <= limit,
        0 <= height <= limit,
    ensures
        cell_cost(start, height, end) <= limit * limit * (end - start),
{
    let w = end - start;
    lemma_cell_cost_nonnegative(start, height, end);
    if height == 0 || w == 0 {
        assert(limit * limit * w >= 0) by (nonlinear_arith)
            requires limit >= 0, w >= 0;
    } else {
        assert(height * w * (height + w - 2) <= 2 * (limit * limit * w)) by (nonlinear_arith)
            requires 1 <= height <= limit, 1 <= w <= limit;
    }
}

/// With every cell of non-negative width and every entry at most `limit`,
/// the total cost is at most `limit` squared times the sum of the last two
/// entries.
pub proof fn lemma_total_cost_bound(caches: Seq<u64>, limit: int)
    requires
        windows_ordered(caches),
        caches.len() >= 2,
        forall|j: int| 0 <= j < caches.len() ==> caches[j] <= limit,
    ensures
        total_cost(caches) <= limit * limit * (caches[caches.len() - 1] + caches[caches.len() - 2]),
    decreases caches.len(),
{
    let n = caches.len() as int;
    assert(0 <= caches[0] <= limit);
    if n < 3 {
        assert(limit * limit * (caches[n - 1] + caches[n - 2]) >= 0) by (nonlinear_arith)
            requires limit >= 0, caches[n - 1] + caches[n - 2] >= 0;
    } else {
        let front = caches.drop_last();
        assert(windows_ordered(front)) by {
            assert forall|j: int| 0 <= j && j + 2 < front.len() implies front[j] <= #[trigger] front[j + 2] by {
                assert(caches[j] <= caches[j + 2]);
            }
        }
        lemma_total_cost_bound(front, limit);
        assert(caches[n - 3] <= caches[n - 3 + 2]);
        lemma_cell_cost_bound(caches[n - 3] as int, caches[n - 2] as int, caches[n - 1] as int, limit);
        let sq = limit * limit;
        let a = caches[n - 1] as int;
        let b = caches[n - 2] as int;
        let c = caches[n - 3] as int;
        assert(sq * (b + c) + sq * (a - c) == sq * (a + b)) by (nonlinear_arith);
    }
}

/// The last entry of `caches`, or nothing for an empty sequence.
pub open spec fn last_or_zero(caches: Seq<u64>) -> int {
    if caches.len() > 0 {
        caches[caches.len() - 1] as int
    } else {
        0
    }
}

impl Shape {
    /// The number of slots of the buffer.
    pub open spec fn slots(self) -> int {
        2 * self.nhoriz + 3
    }

    /// The number of movable slots.
    pub open spec fn movable(self) -> int {
        self.nhoriz + self.nvert
    }

    /// Whether `slot` belongs to the horizontal axis.
    pub open spec fn slot_horizontal(self, slot: int) -> bool {
        match self.first {
            Layout::FirstHorizontal => slot % 2 == 1,
            Layout::FirstVertical => slot % 2 == 0,
        }
    }

    /// Whether `slot` holds a cut coordinate that the search may raise.
    pub open spec fn slot_movable(self, slot: int) -> bool {
        1 <= slot && if self.slot_horizontal(slot) {
            slot <= 2 * self.nhoriz
        } else {
            slot <= 2 * self.nvert
        }
    }

    /// The length of the axis that `slot` belongs to.
    pub open spec fn axis_length(self, slot: int) -> u64 {
        if self.slot_horizontal(slot) {
            self.width
        } else {
            self.height
        }
    }

    /// The slot of the `index`-th movable coordinate, counted from the
    /// front of the buffer.
    pub open spec fn position(self, index: int) -> int {
        if index < 2 * self.nvert {
            index + 1
        } else {
            match self.first {
                Layout::FirstHorizontal => 2 * index - 2 * self.nvert + 1,
                Layout::FirstVertical => 2 * index - 2 * self.nvert + 2,
            }
        }
    }

    /// The movable slots in ascending order.
    pub open spec fn table(self) -> Seq<usize> {
        Seq::new(self.movable() as nat, |index: int| self.position(index) as usize)
    }

    /// The slot of the `x`-th horizontal cut.
    pub open spec fn horizontal_slot(self, x: int) -> int {
        match self.first {
            Layout::FirstHorizontal => 2 * x + 1,
            Layout::FirstVertical => 2 * x + 2,
        }
    }

    /// The slot of the `x`-th vertical cut.
    pub open spec fn vertical_slot(self, x: int) -> int {
        match self.first {
            Layout::FirstHorizontal => 2 * x + 2,
            Layout::FirstVertical => 2 * x + 1,
        }
    }

    /// There are at least as many horizontal cuts as vertical ones, each
    /// axis is longer than the number of its cuts, and the buffer can be
    /// indexed.
    pub open spec fn valid(self) -> bool {
        &&& self.nvert <= self.nhoriz
        &&& self.nhoriz < self.width
        &&& self.nvert < self.height
        &&& 2 * self.nhoriz + 3 <= usize::MAX
    }

    /// A valid shape with something to move, on a grid that is at least as
    /// wide as it is tall and whose costs fit the cost type.
    pub open spec fn searchable(self) -> bool {
        &&& self.valid()
        &&& self.nhoriz >= 1
        &&& self.height <= self.width
        &&& self.width <= MAX_WIDTH
    }

    /// `buf` is a buffer of this shape in which every cell has a width that
    /// is not negative: the origin is 0, each fixed slot holds the length of
    /// its axis, and the movable coordinates are positive, at most the
    /// length of their axis, and ascend along the buffer.
    pub open spec fn feasible(self, buf: Seq<u64>) -> bool {
        &&& buf.len() == self.slots()
        &&& buf[0] == 0
        &&& forall|slot: int|
            1 <= slot < self.slots() && !self.slot_movable(slot) ==> #[trigger] buf[slot]
                == self.axis_length(slot)
        &&& forall|slot: int|
            self.slot_movable(slot) ==> 1 <= #[trigger] buf[slot] <= self.axis_length(slot)
        &&& forall|low: int, high: int|
            self.slot_movable(low) && self.slot_movable(high) && low < high ==> buf[low]
                <= buf[high]
    }

    /// The `index`-th movable coordinate is below the length of its axis
    /// and below the movable coordinate that follows it, if there is one.
    pub open spec fn may_step(self, buf: Seq<u64>, index: int) -> bool {
        let slot = self.position(index);
        &&& buf[slot] < self.axis_length(slot)
        &&& index + 1 < self.movable() ==> buf[slot] < buf[self.position(index + 1)]
    }

    /// The `index`-th movable coordinate may step, and the step does not
    /// raise the total cost.
    pub open spec fn can_advance(self, buf: Seq<u64>, index: int) -> bool {
        &&& self.may_step(buf, index)
        &&& total_cost(advanced(buf, self.position(index))) <= total_cost(buf)
    }

    /// The buffer that the search ends with when it stands at `pivot` over
    /// `buf`, having `improved` or not since the sweep began.
    ///
    /// A coordinate that can advance does so, and the sweep starts again at
    /// the last movable coordinate. Otherwise the pivot moves one down. At
    /// the front, a sweep that improved something is followed by another,
    /// and one that improved nothing ends the search.
    pub open spec fn search(self, buf: Seq<u64>, pivot: int, improved: bool) -> Seq<u64>
        decreases room(buf), (if improved { 1int } else { 0int }), pivot,
        when self.nvert <= self.nhoriz && buf.len() == self.slots() && 0 <= pivot < self.movable()
    {
        if self.can_advance(buf, pivot) {
            proof {
                self.lemma_position_range(pivot);
                lemma_room_advanced(buf, self.position(pivot));
            }
            self.search(advanced(buf, self.position(pivot)), self.movable() - 1, true)
        } else if pivot > 0 {
            self.search(buf, pivot - 1, improved)
        } else if improved {
            self.search(buf, self.movable() - 1, false)
        } else {
            buf
        }
    }

    /// The slot of a movable coordinate is a movable slot of the buffer,
    /// and later coordinates have later slots.
    pub proof fn lemma_position_range(self, index: int)
        requires
            self.nvert <= self.nhoriz,
            0 <= index < self.movable(),
        ensures
            1 <= self.position(index) <= 2 * self.nhoriz,
            self.slot_movable(self.position(index)),
            index + 1 < self.movable() ==> self.position(index) < self.position(index + 1),
    {
    }

    /// Every movable slot is the slot of one of the movable coordinates.
    pub proof fn lemma_slot_index(self, slot: int) -> (index: int)
        requires
            self.nvert <= self.nhoriz,
            self.slot_movable(slot),
        ensures
            0 <= index < self.movable(),
            self.position(index) == slot,
    {
        if slot <= 2 * self.nvert {
            slot - 1
        } else {
            match self.first {
                Layout::FirstHorizontal => (slot - 1 + 2 * self.nvert) / 2,
                Layout::FirstVertical => (slot - 2 + 2 * self.nvert) / 2,
            }
        }
    }

    /// In a feasible buffer no cell has a negative width and no entry is
    /// above the width of the grid.
    pub proof fn lemma_feasible_windows(self, buf: Seq<u64>)
        requires
            self.searchable(),
            self.feasible(buf),
        ensures
            windows_ordered(buf),
            forall|j: int| 0 <= j < buf.len() ==> buf[j] <= self.width,
    {
        assert forall|j: int| 0 <= j < buf.len() implies buf[j] <= self.width by {
            if j >= 1 {
                if self.slot_movable(j) {
                    assert(buf[j] <= self.axis_length(j));
                } else {
                    assert(buf[j] == self.axis_length(j));
                }
            }
        }
        assert forall|j: int| 0 <= j && j + 2 < buf.len() implies buf[j] <= #[trigger] buf[j + 2] by {
            if j >= 1 {
                assert(self.slot_horizontal(j) == self.slot_horizontal(j + 2));
                if self.slot_movable(j + 2) {
                    assert(self.slot_movable(j));
                } else if self.slot_movable(j) {
                    assert(buf[j] <= self.axis_length(j));
                    assert(buf[j + 2] == self.axis_length(j + 2));
                } else {
                    assert(buf[j] == self.axis_length(j));
                    assert(buf[j + 2] == self.axis_length(j + 2));
                }
            }
        }
    }

    /// The total cost of a feasible buffer, with the residuals of both
    /// axes added, fits the cost type.
    pub proof fn lemma_feasible_cost(self, buf: Seq<u64>)
        requires
            self.searchable(),
            self.feasible(buf),
        ensures
            0 <= total_cost(buf),
            total_cost(buf) + 2 * self.width <= u64::MAX,
    {
        self.lemma_feasible_windows(buf);
        let limit = self.width as int;
        lemma_total_cost_bound(buf, limit);
        lemma_total_cost_prefix(buf, buf.len() as int);
        let n = buf.len() as int;
        let ends = buf[n - 1] + buf[n - 2];
        assert(limit * limit * ends + 2 * limit <= u64::MAX) by (nonlinear_arith)
            requires 0 <= limit <= 2_097_151, 0 <= ends <= 2 * limit;
    }

    /// A step that may be taken leaves the buffer feasible.
    pub proof fn lemma_step_feasible(self, buf: Seq<u64>, index: int)
        requires
            self.valid(),
            self.feasible(buf),
            0 <= index < self.movable(),
            self.may_step(buf, index),
        ensures
            self.feasible(advanced(buf, self.position(index))),
    {
        let slot = self.position(index);
        let after = advanced(buf, slot);
        self.lemma_position_range(index);
        assert forall|low: int, high: int|
            self.slot_movable(low) && self.slot_movable(high) && low < high implies after[low]
                <= after[high] by {
            assert(buf[low] <= buf[high]);
            if low == slot {
                let k = self.lemma_slot_index(high);
                if k <= index {
                    if k < index {
                        self.lemma_positions_ascend(k, index);
                    }
                } else {
                    if index + 1 < k {
                        self.lemma_positions_ascend(index + 1, k);
                        assert(buf[self.position(index + 1)] <= buf[high]);
                    }
                }
            }
        }
    }

    /// Later movable coordinates have later slots.
    pub proof fn lemma_positions_ascend(self, low: int, high: int)
        requires
            self.nvert <= self.nhoriz,
            0 <= low < high < self.movable(),
        ensures
            self.position(low) < self.position(high),
    {
    }
}

impl Shape {
    /// The horizontal cut coordinates held in `buf`.
    pub open spec fn horizontal_caches(self, buf: Seq<u64>) -> Seq<u64> {
        Seq::new(self.nhoriz as nat, |x: int| buf[self.horizontal_slot(x)])
    }

    /// The vertical cut coordinates held in `buf`.
    pub open spec fn vertical_caches(self, buf: Seq<u64>) -> Seq<u64> {
        Seq::new(self.nvert as nat, |x: int| buf[self.vertical_slot(x)])
    }

    /// The cost of the layout held in `buf`: the last cut coordinate of
    /// each axis and the total cost of the buffer.
    pub open spec fn final_cost(self, buf: Seq<u64>) -> int {
        last_or_zero(self.horizontal_caches(buf)) + last_or_zero(self.vertical_caches(buf))
            + total_cost(buf)
    }

    /// The solution read out of `buf`.
    pub open spec fn solution(self, buf: Seq<u64>) -> SolutionView<u64> {
        SolutionView {
            cost: self.final_cost(buf) as u64,
            vertical_caches: self.vertical_caches(buf),
            horizontal_caches: self.horizontal_caches(buf),
        }
    }
}

impl Shape {
    /// Which of the movable coordinates, counted from the front of the
    /// buffer, the movable slot `slot` holds.
    pub open spec fn slot_index(self, slot: int) -> int {
        if slot <= 2 * self.nvert {
            slot - 1
        } else {
            match self.first {
                Layout::FirstHorizontal => (slot - 1 + 2 * self.nvert) / 2,
                Layout::FirstVertical => (slot - 2 + 2 * self.nvert) / 2,
            }
        }
    }

    /// The buffer that a search starts from: the origin, then the movable
    /// coordinates seeded with 1, 2, 3 and so on along the buffer, and the
    /// length of its axis in every fixed slot.
    pub open spec fn initial_buffer(self) -> Seq<u64> {
        Seq::new(
            self.slots() as nat,
            |slot: int|
                if slot == 0 {
                    0u64
                } else if self.slot_movable(slot) {
                    (self.slot_index(slot) + 1) as u64
                } else {
                    self.axis_length(slot)
                },
        )
    }

    /// The seed of the last vertical cut, or 0 without vertical cuts.
    pub open spec fn last_vertical_seed(self) -> int {
        if self.nvert == 0 {
            0
        } else {
            match self.first {
                Layout::FirstHorizontal => 2 * self.nvert,
                Layout::FirstVertical => 2 * self.nvert - 1,
            }
        }
    }

    /// The seed of the last horizontal cut, or 0 without horizontal cuts.
    pub open spec fn last_horizontal_seed(self) -> int {
        if self.nhoriz == 0 {
            0
        } else if self.nhoriz > self.nvert {
            self.nhoriz + self.nvert
        } else {
            match self.first {
                Layout::FirstHorizontal => 2 * self.nvert - 1,
                Layout::FirstVertical => 2 * self.nvert,
            }
        }
    }

    /// The seeds fit the grid: the last seed of each axis is at most the
    /// length of that axis.
    pub open spec fn seedable(self) -> bool {
        &&& self.last_vertical_seed() <= self.height
        &&& self.last_horizontal_seed() <= self.width
    }

    /// The slots of the cuts in the order in which a layout names them:
    /// the vertical cuts first, the horizontal cuts after them.
    pub open spec fn cut_slots(self) -> Seq<usize> {
        Seq::new(
            self.movable() as nat,
            |k: int|
                if k < self.nvert {
                    self.vertical_slot(k) as usize
                } else {
                    self.horizontal_slot(k - self.nvert) as usize
                },
        )
    }

    /// The outcome of the search over the initial buffer of this shape.
    pub open spec fn outcome(self) -> SolutionView<u64> {
        self.solution(self.search(self.initial_buffer(), self.movable() - 1, false))
    }

    /// The initial buffer of a shape whose seeds fit the grid is feasible.
    pub proof fn lemma_initial_feasible(self)
        requires
            self.valid(),
            self.seedable(),
        ensures
            self.feasible(self.initial_buffer()),
    {
        let buf = self.initial_buffer();
        assert forall|slot: int| self.slot_movable(slot) implies 1 <= #[trigger] buf[slot]
            <= self.axis_length(slot) by {
            let index = self.lemma_slot_index(slot);
        }
        assert forall|low: int, high: int|
            self.slot_movable(low) && self.slot_movable(high) && low < high implies buf[low]
                <= buf[high] by {
            let a = self.lemma_slot_index(low);
            let b = self.lemma_slot_index(high);
        }
    }

    /// The table of the movable slots is strictly increasing and holds the
    /// same slots as the list of the cuts.
    pub proof fn lemma_table_holds_cuts(self)
        requires
            self.valid(),
        ensures
            strictly_increasing(self.table()),
            forall|slot: usize| self.table().contains(slot) <==> self.cut_slots().contains(slot),
    {
        let table = self.table();
        let cuts = self.cut_slots();
        assert forall|i: int, j: int| 0 <= i < j < table.len() implies table[i] < table[j] by {
            self.lemma_positions_ascend(i, j);
            self.lemma_position_range(i);
            self.lemma_position_range(j);
        }
        assert forall|slot: usize| table.contains(slot) <==> cuts.contains(slot) by {
            if table.contains(slot) {
                let i = choose|i: int| 0 <= i < table.len() && table[i] == slot;
                self.lemma_position_range(i);
                let k = if self.slot_horizontal(slot as int) {
                    match self.first {
                        Layout::FirstHorizontal => self.nvert + (slot - 1) / 2,
                        Layout::FirstVertical => self.nvert + (slot - 2) / 2,
                    }
                } else {
                    match self.first {
                        Layout::FirstHorizontal => (slot - 2) / 2,
                        Layout::FirstVertical => (slot - 1) / 2,
                    }
                };
                assert(0 <= k < cuts.len());
                assert(cuts[k] == slot);
            }
            if cuts.contains(slot) {
                let k = choose|k: int| 0 <= k < cuts.len() && cuts[k] == slot;
                assert(self.slot_movable(slot as int));
                let i = self.lemma_slot_index(slot as int);
                assert(table[i] == slot);
            }
        }
    }
}

} // verus!
