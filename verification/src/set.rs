//! An ordered set implemented with an AVL tree: a thin front over the
//! set layered on the map, without the set-algebra iterators.

use vstd::prelude::*;

use crate::map::Bound;
use crate::map::in_bounds;
use crate::map::strictly_sorted;
use crate::map::valid_range;

verus! {

/// An ordered set of `i64` values, implemented with an AVL tree.
pub struct AvlTreeSet {
    inner: crate::map::set::AvlTreeSet,
}

/// An iterator over the values of a set, in ascending order.
pub struct Iter {
    inner: crate::map::set::Iter,
}

/// An iterator over a range of values of a set, in ascending order.
pub struct Range {
    inner: crate::map::set::Range,
}

/// An owning iterator over the values of a set, in ascending order.
pub struct IntoIter {
    inner: crate::map::set::IntoIter,
}

impl AvlTreeSet {
    /// The values currently stored in the set.
    pub closed spec fn as_set(self) -> Set<i64> {
        self.inner@
    }

    /// Well-formedness of the underlying tree.
    pub closed spec fn well_formed(self) -> bool {
        self.inner.well_formed()
    }

    /// The values in ascending order.
    pub closed spec fn spec_key_seq(self) -> Seq<i64> {
        self.inner.spec_key_seq()
    }

    /// Creates an empty set.
    /// No memory is allocated until the first item is inserted.
    pub fn new() -> (set: Self)
        ensures
            set.well_formed(),
            set@ == Set::<i64>::empty(),
    {
        AvlTreeSet { inner: crate::map::set::AvlTreeSet::new() }
    }

    /// Returns a reference to the value in the set that is equal to the
    /// given value, if present.
    pub fn get(&self, value: &i64) -> (r: Option<i64>)
        requires
            self.well_formed(),
        ensures
            r == (if self@.contains(*value) {
                Some(*value)
            } else {
                None::<i64>
            }),
    {
        self.inner.get(value)
    }

    /// Returns true if the set contains a value.
    pub fn contains(&self, value: &i64) -> (r: bool)
        requires
            self.well_formed(),
        ensures
            r == self@.contains(*value),
    {
        self.inner.contains(value)
    }

    /// Inserts a value into the set. Returns whether the value is new.
    pub fn insert(&mut self, value: i64) -> (r: bool)
        requires
            old(self).well_formed(),
            old(self)@.len() < usize::MAX,
        ensures
            final(self).well_formed(),
            final(self)@ == old(self)@.insert(value),
            r == !old(self)@.contains(value),
    {
        self.inner.insert(value)
    }

    /// Removes a value from the set.
    /// Returns whether the value was previously in the set.
    pub fn remove(&mut self, value: &i64) -> (r: bool)
        requires
            old(self).well_formed(),
        ensures
            final(self).well_formed(),
            final(self)@ == old(self)@.remove(*value),
            r == old(self)@.contains(*value),
    {
        self.inner.remove(value)
    }

    /// Removes a value from the set.
    /// Returns the value if it was previously in the set.
    pub fn take(&mut self, value: &i64) -> (r: Option<i64>)
        requires
            old(self).well_formed(),
        ensures
            final(self).well_formed(),
            final(self)@ == old(self)@.remove(*value),
            r == (if old(self)@.contains(*value) {
                Some(*value)
            } else {
                None::<i64>
            }),
    {
        self.inner.take(value)
    }

    /// Moves all values from other into self, leaving other empty.
    pub fn append(&mut self, other: &mut Self)
        requires
            old(self).well_formed(),
            old(other).well_formed(),
            old(self)@.len() + old(other)@.len() <= usize::MAX,
        ensures
            final(self).well_formed(),
            final(other).well_formed(),
            final(self)@ == old(self)@ + old(other)@,
            final(other)@ == Set::<i64>::empty(),
    {
        self.inner.append(&mut other.inner)
    }

    /// Gets an iterator over a sub-range of values in the set in sorted
    /// order. The range must be valid: its start must not sort after its
    /// end, and a range whose bounds both exclude one and the same key is
    /// refused.
    pub fn range(&self, start: Bound, end: Bound) -> (it: Range)
        requires
            self.well_formed(),
            valid_range(start, end),
        ensures
            it.remaining() == self.spec_key_seq().filter((|k: i64| in_bounds(k, start, end))),
    {
        Range { inner: self.inner.range(start, end) }
    }

    /// Walks the whole tree and re-derives the consistency checks; every
    /// check is discharged by the verifier, so the walk cannot fail.
    pub fn check_consistency(&self)
        requires
            self.well_formed(),
    {
        self.inner.check_consistency()
    }

    /// Returns true if the set contains no elements.
    pub fn is_empty(&self) -> (r: bool)
        ensures
            r == (self@ == Set::<i64>::empty()),
    {
        self.inner.is_empty()
    }

    /// Returns the number of elements in the set.
    pub fn len(&self) -> (n: usize)
        requires
            self.well_formed(),
        ensures
            self@.finite(),
            n == self@.len(),
    {
        self.inner.len()
    }

    /// Clears the set, deallocating all memory.
    pub fn clear(&mut self)
        ensures
            final(self).well_formed(),
            final(self)@ == Set::<i64>::empty(),
    {
        self.inner.clear()
    }

    /// Gets an iterator over the values of the set in sorted order.
    pub fn iter(&self) -> (it: Iter)
        requires
            self.well_formed(),
        ensures
            it.remaining() == self.spec_key_seq(),
            strictly_sorted(it.remaining()),
            forall|k: i64| it.remaining().contains(k) <==> self@.contains(k),
    {
        Iter { inner: self.inner.iter() }
    }

    /// Turns the set into an owning iterator over its values.
    pub fn into_iter(self) -> (it: IntoIter)
        requires
            self.well_formed(),
        ensures
            it.remaining() == self.spec_key_seq(),
            strictly_sorted(it.remaining()),
            forall|k: i64| it.remaining().contains(k) <==> self@.contains(k),
    {
        IntoIter { inner: self.inner.into_iter() }
    }
}

impl Iter {
    /// The values not yet handed out, in ascending order.
    pub closed spec fn remaining(self) -> Seq<i64> {
        self.inner.remaining()
    }

    /// Hands out the smallest remaining value.
    pub fn next(&mut self) -> (r: Option<i64>)
        ensures
            old(self).remaining().len() == 0 ==> r is None && final(self).remaining() == old(self).remaining(),
            old(self).remaining().len() > 0 ==> r == Some(old(self).remaining()[0]) && final(self).remaining() == old(self).remaining().drop_first(),
    {
        self.inner.next()
    }

    /// Hands out the largest remaining value.
    pub fn next_back(&mut self) -> (r: Option<i64>)
        ensures
            old(self).remaining().len() == 0 ==> r is None && final(self).remaining() == old(self).remaining(),
            old(self).remaining().len() > 0 ==> r == Some(old(self).remaining().last()) && final(self).remaining() == old(self).remaining().drop_last(),
    {
        self.inner.next_back()
    }
}

impl Range {
    /// The values not yet handed out, in ascending order.
    pub closed spec fn remaining(self) -> Seq<i64> {
        self.inner.remaining()
    }

    /// Hands out the smallest remaining value.
    pub fn next(&mut self) -> (r: Option<i64>)
        ensures
            old(self).remaining().len() == 0 ==> r is None && final(self).remaining() == old(self).remaining(),
            old(self).remaining().len() > 0 ==> r == Some(old(self).remaining()[0]) && final(self).remaining() == old(self).remaining().drop_first(),
    {
        self.inner.next()
    }

    /// Hands out the largest remaining value.
    pub fn next_back(&mut self) -> (r: Option<i64>)
        ensures
            old(self).remaining().len() == 0 ==> r is None && final(self).remaining() == old(self).remaining(),
            old(self).remaining().len() > 0 ==> r == Some(old(self).remaining().last()) && final(self).remaining() == old(self).remaining().drop_last(),
    {
        self.inner.next_back()
    }
}

impl IntoIter {
    /// The values not yet handed out, in ascending order.
    pub closed spec fn remaining(self) -> Seq<i64> {
        self.inner.remaining()
    }

    /// Hands out the smallest remaining value.
    pub fn next(&mut self) -> (r: Option<i64>)
        ensures
            old(self).remaining().len() == 0 ==> r is None && final(self).remaining() == old(self).remaining(),
            old(self).remaining().len() > 0 ==> r == Some(old(self).remaining()[0]) && final(self).remaining() == old(self).remaining().drop_first(),
    {
        self.inner.next()
    }

    /// Hands out the largest remaining value.
    pub fn next_back(&mut self) -> (r: Option<i64>)
        ensures
            old(self).remaining().len() == 0 ==> r is None && final(self).remaining() == old(self).remaining(),
            old(self).remaining().len() > 0 ==> r == Some(old(self).remaining().last()) && final(self).remaining() == old(self).remaining().drop_last(),
    {
        self.inner.next_back()
    }
}

impl View for AvlTreeSet {
    type V = Set<i64>;

    open spec fn view(&self) -> Set<i64> {
        self.as_set()
    }
}

impl Default for AvlTreeSet {
    /// Creates an empty set.
    fn default() -> (set: Self)
        ensures
            set.well_formed(),
            set@ == Set::<i64>::empty(),
    {
        Self::new()
    }
}

} // verus!
