//! A view over an owned buffer that exposes a chosen subset of its positions
//! as a dense sequence of its own.

use itertools::Itertools;
use vstd::prelude::*;

verus! {

/// Each entry is below every later one.
pub open spec fn strictly_increasing(indices: Seq<usize>) -> bool {
    forall|i: int, j: int| 0 <= i < j < indices.len() ==> indices[i] < indices[j]
}

/// No entry is above a later one.
pub open spec fn ascending(indices: Seq<usize>) -> bool {
    forall|i: int, j: int| 0 <= i < j < indices.len() ==> indices[i] <= indices[j]
}

/// Two strictly increasing sequences that hold the same values are equal.
pub proof fn lemma_strictly_increasing_unique(a: Seq<usize>, b: Seq<usize>)
    requires
        strictly_increasing(a),
        strictly_increasing(b),
        forall|x: usize| a.contains(x) <==> b.contains(x),
    ensures
        a == b,
    decreases a.len(),
{
    if a.len() == 0 {
        if b.len() > 0 {
            assert(b.contains(b[0]));
            assert(a.contains(b[0]));
        }
        assert(a =~= b);
    } else {
        let la = a[a.len() - 1];
        assert(a.contains(la));
        assert(b.contains(la));
        let lb = b[b.len() - 1];
        assert(b.contains(lb));
        assert(a.contains(lb));
        // The last entry is the largest on both sides, hence the same.
        assert(la == lb) by {
            let ia = choose|i: int| 0 <= i < a.len() && a[i] == lb;
            let ib = choose|i: int| 0 <= i < b.len() && b[i] == la;
            assert(lb <= la) by {
                if ia < a.len() - 1 {
                    assert(a[ia] < a[a.len() - 1]);
                }
            }
            assert(la <= lb) by {
                if ib < b.len() - 1 {
                    assert(b[ib] < b[b.len() - 1]);
                }
            }
        }
        let a0 = a.drop_last();
        let b0 = b.drop_last();
        assert forall|x: usize| a0.contains(x) <==> b0.contains(x) by {
            if a0.contains(x) {
                let i = choose|i: int| 0 <= i < a0.len() && a0[i] == x;
                assert(a[i] == x && a[i] < a[a.len() - 1]);
                assert(a.contains(x));
                let k = choose|k: int| 0 <= k < b.len() && b[k] == x;
                assert(k < b.len() - 1);
                assert(b0[k] == x);
            }
            if b0.contains(x) {
                let i = choose|i: int| 0 <= i < b0.len() && b0[i] == x;
                assert(b[i] == x && b[i] < b[b.len() - 1]);
                assert(b.contains(x));
                let k = choose|k: int| 0 <= k < a.len() && a[k] == x;
                assert(k < a.len() - 1);
                assert(a0[k] == x);
            }
        }
        assert(strictly_increasing(a0)) by {
            assert forall|i: int, j: int| 0 <= i < j < a0.len() implies a0[i] < a0[j] by {
                assert(a[i] < a[j]);
            }
        }
        assert(strictly_increasing(b0)) by {
            assert forall|i: int, j: int| 0 <= i < j < b0.len() implies b0[i] < b0[j] by {
                assert(b[i] < b[j]);
            }
        }
        lemma_strictly_increasing_unique(a0, b0);
        assert(a =~= a0.push(la));
        assert(b =~= b0.push(lb));
    }
}

/// The indices in ascending order. Calls `Itertools::sorted`, which sorts
/// all items of the iterator with the slice's stable sort: the result holds
/// the same items, each as often as before, smallest first.
#[verifier::external_body]
fn sorted_indices(valid_indices: Vec<usize>) -> (sorted: Vec<usize>)
    ensures
        sorted@.to_multiset() == valid_indices@.to_multiset(),
        ascending(sorted@),
{
    valid_indices.into_iter().sorted().collect()
}

/// An owned buffer together with the ascending table of the positions that
/// the view exposes: position `i` of the view is position `indices()[i]` of
/// the buffer.
#[derive(Debug)]
pub struct FilteredSlice<T> {
    elements: Vec<T>,
    index_translations: Vec<usize>,
}

impl<T> FilteredSlice<T> {
    /// The whole buffer, exposed positions and others alike.
    pub closed spec fn raw(&self) -> Seq<T> {
        self.elements@
    }

    /// The table that maps a position of the view to a position of the buffer.
    pub closed spec fn indices(&self) -> Seq<usize> {
        self.index_translations@
    }

    /// The table is strictly increasing.
    pub open spec fn well_formed(&self) -> bool {
        strictly_increasing(self.indices())
    }

    /// The number of exposed positions.
    pub fn len(&self) -> (len: usize)
        ensures
            len == self.indices().len(),
    {
        self.index_translations.len()
    }

    /// A view over `elements` that exposes the positions named in
    /// `valid_indices`, in ascending order, each once.
    pub fn create(elements: Vec<T>, valid_indices: Vec<usize>) -> (view: Self)
        ensures
            view.well_formed(),
            view.raw() == elements@,
            forall|x: usize| view.indices().contains(x) <==> valid_indices@.contains(x),
    {
        let sorted = sorted_indices(valid_indices);
        let mut index_translations: Vec<usize> = Vec::new();
        let mut i: usize = 0;
        while i < sorted.len()
            invariant
                i <= sorted@.len(),
                ascending(sorted@),
                strictly_increasing(index_translations@),
                index_translations@.len() <= i,
                i > 0 ==> index_translations@.len() > 0 && index_translations@[
                    index_translations@.len() - 1
                ] == sorted@[i - 1],
                forall|k: int| 0 <= k < i ==> index_translations@.contains(#[trigger] sorted@[k]),
                forall|m: int|
                    0 <= m < index_translations@.len() ==> sorted@.take(i as int).contains(
                        #[trigger] index_translations@[m],
                    ),
            decreases sorted@.len() - i,
        {
            let index = sorted[i];
            let ghost before = index_translations@;
            if i == 0 || sorted[i - 1] != index {
                index_translations.push(index);
                proof {
                    let after = index_translations@;
                    assert(after[after.len() - 1] == index);
                    assert forall|a: int, b: int| 0 <= a < b < after.len() implies after[a]
                        < after[b] by {
                        if b == after.len() - 1 {
                            if a < before.len() - 1 {
                                assert(before[a] < before[before.len() - 1]);
                            }
                            assert(sorted@[i - 1] <= sorted@[i as int]);
                        } else {
                            assert(before[a] < before[b]);
                        }
                    }
                    assert forall|k: int| 0 <= k < i + 1 implies after.contains(
                        #[trigger] sorted@[k],
                    ) by {
                        if k < i {
                            assert(before.contains(sorted@[k]));
                            let m = choose|m: int| 0 <= m < before.len() && before[m] == sorted@[k];
                            assert(after[m] == sorted@[k]);
                        } else {
                            assert(after[after.len() - 1] == sorted@[k]);
                        }
                    }
                }
            } else {
                proof {
                    assert forall|k: int| 0 <= k < i + 1 implies before.contains(
                        #[trigger] sorted@[k],
                    ) by {
                        if k == i {
                            assert(before.contains(sorted@[i - 1]));
                        }
                    }
                }
            }
            proof {
                let after = index_translations@;
                assert forall|m: int| 0 <= m < after.len() implies sorted@.take(
                    i + 1,
                ).contains(#[trigger] after[m]) by {
                    if m < before.len() {
                        assert(sorted@.take(i as int).contains(before[m]));
                        let k = choose|k: int|
                            0 <= k < sorted@.take(i as int).len() && sorted@.take(i as int)[k]
                                == before[m];
                        assert(sorted@.take(i + 1)[k] == after[m]);
                    } else {
                        assert(sorted@.take(i + 1)[i as int] == after[m]);
                    }
                }
            }
            i = i + 1;
        }
        proof {
            assert(sorted@.take(i as int) =~= sorted@);
            sorted@.to_multiset_ensures();
            valid_indices@.to_multiset_ensures();
            assert forall|x: usize| index_translations@.contains(x) <==> valid_indices@.contains(
                x,
            ) by {
                if index_translations@.contains(x) {
                    let m = choose|m: int|
                        0 <= m < index_translations@.len() && index_translations@[m] == x;
                    assert(sorted@.contains(index_translations@[m]));
                }
                if valid_indices@.contains(x) {
                    assert(sorted@.to_multiset().count(x) > 0);
                    assert(sorted@.contains(x));
                    let k = choose|k: int| 0 <= k < sorted@.len() && sorted@[k] == x;
                    assert(index_translations@.contains(sorted@[k]));
                }
            }
        }
        FilteredSlice { elements, index_translations }
    }

    /// The element at position `index` of the view.
    pub fn get(&self, index: usize) -> (element: &T)
        requires
            index < self.indices().len(),
            self.indices()[index as int] < self.raw().len(),
        ensures
            *element == self.raw()[self.indices()[index as int] as int],
    {
        &self.elements[self.index_translations[index]]
    }

    /// Replaces the element at position `index` of the view and leaves the
    /// rest of the buffer, and the table, as they were.
    pub fn set(&mut self, index: usize, value: T)
        requires
            index < old(self).indices().len(),
            old(self).indices()[index as int] < old(self).raw().len(),
        ensures
            final(self).indices() == old(self).indices(),
            final(self).raw() == old(self).raw().update(
                old(self).indices()[index as int] as int,
                value,
            ),
    {
        let real_index = self.index_translations[index];
        self.elements[real_index] = value;
    }

    /// The whole buffer.
    pub fn get_raw_ref(&self) -> (elements: &Vec<T>)
        ensures
            elements@ == self.raw(),
    {
        &self.elements
    }
}

} // verus!
