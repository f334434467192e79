//! A sequence adapter that keeps yielding its last item once the source is
//! used up.

use vstd::prelude::*;

verus! {

/// What the adapter yields at its `k`-th call over the source `source`:
/// the `k`-th item while there is one, the last item from then on, and
/// nothing at all over an empty source.
pub open spec fn sticky_item<T>(source: Seq<T>, k: int) -> Option<T> {
    if source.len() == 0 {
        None
    } else if k < source.len() {
        Some(source[k])
    } else {
        Some(source[source.len() - 1])
    }
}

/// Walks over a source and, once the source is drained, repeats the item it
/// yielded last.
pub struct LastRepeatIter<T: Copy> {
    it: Vec<T>,
    taken: usize,
    next: Option<T>,
    last: bool,
}

impl<T: Copy> LastRepeatIter<T> {
    /// The items that the adapter walks over.
    pub closed spec fn source(&self) -> Seq<T> {
        self.it@
    }

    /// How many items of the source have been taken so far.
    pub closed spec fn taken(&self) -> int {
        self.taken as int
    }

    /// The latch is set only after the whole source was taken, and the
    /// remembered item is the one taken last.
    pub closed spec fn well_formed(&self) -> bool {
        &&& self.taken <= self.it@.len()
        &&& self.last ==> self.taken == self.it@.len()
        &&& self.next == if self.taken == 0 {
            None
        } else {
            Some(self.it@[self.taken - 1])
        }
    }

    /// An adapter over `it` that has yielded nothing yet.
    pub fn new(it: Vec<T>) -> (iter: Self)
        ensures
            iter.well_formed(),
            iter.source() == it@,
            iter.taken() == 0,
    {
        LastRepeatIter { it, taken: 0, next: None, last: false }
    }

    /// Yields the next item of the source, or the last one again when the
    /// source is drained.
    pub fn next(&mut self) -> (item: Option<T>)
        requires
            old(self).well_formed(),
        ensures
            final(self).well_formed(),
            final(self).source() == old(self).source(),
            item == sticky_item(old(self).source(), old(self).taken()),
            final(self).taken() == if old(self).taken() < old(self).source().len() {
                old(self).taken() + 1
            } else {
                old(self).taken()
            },
    {
        if !self.last {
            if self.taken < self.it.len() {
                self.next = Some(self.it[self.taken]);
                self.taken = self.taken + 1;
            } else {
                self.last = true;
            }
        }
        self.next
    }
}

} // verus!
