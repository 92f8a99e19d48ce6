//! An ordered set implemented with an AVL tree.
//!
//! A set is a map whose value type is the unit type. The set algebra is
//! computed by merge-joins over the sorted key sequences of the two sets.

use vstd::prelude::*;

use crate::map::AvlTreeMap;
use crate::map::Bound;
use crate::map::in_bounds;
use crate::map::strictly_sorted;
use crate::map::valid_range;

verus! {

/// An ordered set of `i64` values, implemented with an AVL tree.
///
/// The abstract view of the set is a `vstd` `Set<i64>`.
pub struct AvlTreeSet {
    map: AvlTreeMap<()>,
}

/// An iterator over the values of a set, in ascending order.
pub struct Iter {
    keys: Vec<i64>,
}

/// An iterator over a range of values of a set, in ascending order.
pub struct Range {
    keys: Vec<i64>,
}

/// An owning iterator over the values of a set, in ascending order.
pub struct IntoIter {
    keys: Vec<i64>,
}

/// An iterator for the values in the union of two sets: every value in
/// either set, in ascending order.
pub struct Union {
    keys: Vec<i64>,
}

/// An iterator for the values in the intersection of two sets: every value
/// in both sets, in ascending order.
pub struct Intersection {
    keys: Vec<i64>,
}

/// An iterator for the values in the difference of two sets: every value in
/// the first set but not the second, in ascending order.
pub struct Difference {
    keys: Vec<i64>,
}

/// An iterator for the values in the symmetric difference of two sets:
/// every value in exactly one of the two, in ascending order.
pub struct SymmetricDifference {
    keys: Vec<i64>,
}

/// Appending an element larger than every present one keeps a key sequence
/// strictly sorted.
proof fn lemma_push_sorted(r: Seq<i64>, x: i64)
    requires
        strictly_sorted(r),
        r.len() > 0 ==> r.last() < x,
    ensures
        strictly_sorted(r.push(x)),
{
    let rp = r.push(x);
    assert forall|p: int, q: int| 0 <= p < q < rp.len() implies rp[p] < rp[q] by {
        if q < r.len() {
            assert(rp[p] == r[p] && rp[q] == r[q]);
        } else {
            assert(rp[q] == x);
            if p < r.len() - 1 {
                assert(r[p] < r[r.len() - 1]);
            }
        }
    };
}

/// What a key sequence contains after a push, for one key.
proof fn lemma_push_contains_one(r: Seq<i64>, x: i64, k: i64)
    ensures
        r.push(x).contains(k) <==> r.contains(k) || k == x,
{
    if r.contains(k) {
        let idx = choose|idx: int| 0 <= idx < r.len() && r[idx] == k;
        assert(r.push(x)[idx] == k);
    }
    if k == x {
        assert(r.push(x)[r.len() as int] == k);
    }
    if r.push(x).contains(k) {
        let idx = choose|idx: int| 0 <= idx < r.push(x).len() && r.push(x)[idx] == k;
        if idx < r.len() {
            assert(r[idx] == k);
        }
    }
}

/// Extending a prefix of a sequence by one element.
proof fn lemma_subrange_push(s: Seq<i64>, i: int)
    requires
        0 <= i < s.len(),
    ensures
        s.subrange(0, i + 1) == s.subrange(0, i).push(s[i]),
{
    assert(s.subrange(0, i + 1) =~= s.subrange(0, i).push(s[i]));
}

/// A key of a prefix is a key of the whole sequence, and a key below the
/// prefix end is in the prefix.
proof fn lemma_subrange_contains_one(s: Seq<i64>, n: int, k: i64)
    requires
        0 <= n <= s.len(),
    ensures
        s.subrange(0, n).contains(k) <==> exists|y: int| 0 <= y < n && s[y] == k,
{
    if s.subrange(0, n).contains(k) {
        let y = choose|y: int| 0 <= y < n && s.subrange(0, n)[y] == k;
        assert(s[y] == k);
    }
    if exists|y: int| 0 <= y < n && s[y] == k {
        let y = choose|y: int| 0 <= y < n && s[y] == k;
        assert(s.subrange(0, n)[y] == k);
    }
}

/// Sorted merge of two sorted key sequences: the result holds the keys that
/// occur in either input, in ascending order.
#[verifier::rlimit(80)]
fn merge_union(a: &Vec<i64>, b: &Vec<i64>) -> (r: Vec<i64>)
    requires
        strictly_sorted(a@),
        strictly_sorted(b@),
    ensures
        strictly_sorted(r@),
        forall|k: i64| r@.contains(k) <==> a@.contains(k) || b@.contains(k),
{
    let mut r: Vec<i64> = Vec::new();
    let mut i: usize = 0;
    let mut j: usize = 0;
    while i < a.len() || j < b.len()
        invariant
            i <= a@.len(),
            j <= b@.len(),
            strictly_sorted(a@),
            strictly_sorted(b@),
            strictly_sorted(r@),
            forall|k: i64|
                r@.contains(k) <==> (a@.subrange(0, i as int).contains(k) || b@.subrange(
                    0,
                    j as int,
                ).contains(k)),
            r@.len() > 0 && i < a@.len() ==> r@.last() < a@[i as int],
            r@.len() > 0 && j < b@.len() ==> r@.last() < b@[j as int],
        decreases a@.len() - i + b@.len() - j,
    {
        let ghost r0 = r@;
        let ghost i0 = i as int;
        let ghost j0 = j as int;
        let take_a: bool = if i >= a.len() {
            false
        } else if j >= b.len() {
            true
        } else {
            a[i] <= b[j]
        };
        let take_b: bool = if j >= b.len() {
            false
        } else if i >= a.len() {
            true
        } else {
            b[j] <= a[i]
        };
        let x: i64 = if take_a {
            a[i]
        } else {
            b[j]
        };
        r.push(x);
        if take_a {
            i = i + 1;
        }
        if take_b {
            j = j + 1;
        }
        proof {
            lemma_push_sorted(r0, x);
            let sa0 = a@.subrange(0, i0);
            let sb0 = b@.subrange(0, j0);
            let sa1 = a@.subrange(0, i as int);
            let sb1 = b@.subrange(0, j as int);
            if take_a {
                lemma_subrange_push(a@, i0);
            }
            if take_b {
                lemma_subrange_push(b@, j0);
            }
            assert forall|k: i64| r@.contains(k) <==> (sa1.contains(k) || sb1.contains(k)) by {
                lemma_push_contains_one(r0, x, k);
                if take_a {
                    lemma_push_contains_one(sa0, a@[i0], k);
                }
                if take_b {
                    lemma_push_contains_one(sb0, b@[j0], k);
                }
                assert(r0.contains(k) <==> sa0.contains(k) || sb0.contains(k));
            };
        }
    }
    proof {
        assert(a@.subrange(0, a@.len() as int) =~= a@);
        assert(b@.subrange(0, b@.len() as int) =~= b@);
    }
    r
}

/// Merge-join of two sorted key sequences keeping the common keys, in
/// ascending order.
#[verifier::rlimit(80)]
fn merge_intersection(a: &Vec<i64>, b: &Vec<i64>) -> (r: Vec<i64>)
    requires
        strictly_sorted(a@),
        strictly_sorted(b@),
    ensures
        strictly_sorted(r@),
        forall|k: i64| r@.contains(k) <==> a@.contains(k) && b@.contains(k),
{
    let mut r: Vec<i64> = Vec::new();
    let mut i: usize = 0;
    let mut j: usize = 0;
    while i < a.len() && j < b.len()
        invariant
            i <= a@.len(),
            j <= b@.len(),
            strictly_sorted(a@),
            strictly_sorted(b@),
            strictly_sorted(r@),
            forall|k: i64|
                r@.contains(k) <==> (a@.subrange(0, i as int).contains(k) && b@.subrange(
                    0,
                    j as int,
                ).contains(k)),
            i < a@.len() ==> (forall|y: int| 0 <= y < j ==> b@[y] < a@[i as int]),
            j < b@.len() ==> (forall|y: int| 0 <= y < i ==> a@[y] < b@[j as int]),
            r@.len() > 0 && i < a@.len() ==> r@.last() < a@[i as int],
            r@.len() > 0 && j < b@.len() ==> r@.last() < b@[j as int],
        decreases a@.len() - i + b@.len() - j,
    {
        let ghost r0 = r@;
        let ghost i0 = i as int;
        let ghost j0 = j as int;
        if a[i] < b[j] {
            i = i + 1;
            proof {
                lemma_subrange_push(a@, i0);
                assert forall|k: i64|
                    r@.contains(k) <==> (a@.subrange(0, i as int).contains(k) && b@.subrange(
                        0,
                        j as int,
                    ).contains(k)) by {
                    lemma_push_contains_one(a@.subrange(0, i0), a@[i0], k);
                    assert(r0.contains(k) <==> (a@.subrange(0, i0).contains(k) && b@.subrange(
                        0,
                        j0,
                    ).contains(k)));
                    if k == a@[i0] && b@.subrange(0, j0).contains(k) {
                        let y = choose|y: int| 0 <= y < j0 && b@.subrange(0, j0)[y] == k;
                        assert(b@[y] == k);
                        assert(b@[y] < a@[i0]);
                        assert(false);
                    }
                };
            }
        } else if b[j] < a[i] {
            j = j + 1;
            proof {
                lemma_subrange_push(b@, j0);
                assert forall|k: i64|
                    r@.contains(k) <==> (a@.subrange(0, i as int).contains(k) && b@.subrange(
                        0,
                        j as int,
                    ).contains(k)) by {
                    lemma_push_contains_one(b@.subrange(0, j0), b@[j0], k);
                    assert(r0.contains(k) <==> (a@.subrange(0, i0).contains(k) && b@.subrange(
                        0,
                        j0,
                    ).contains(k)));
                    if k == b@[j0] && a@.subrange(0, i0).contains(k) {
                        let y = choose|y: int| 0 <= y < i0 && a@.subrange(0, i0)[y] == k;
                        assert(a@[y] == k);
                        assert(a@[y] < b@[j0]);
                        assert(false);
                    }
                };
            }
        } else {
            let x = a[i];
            r.push(x);
            i = i + 1;
            j = j + 1;
            proof {
                lemma_push_sorted(r0, x);
                lemma_subrange_push(a@, i0);
                lemma_subrange_push(b@, j0);
                assert forall|k: i64|
                    r@.contains(k) <==> (a@.subrange(0, i as int).contains(k) && b@.subrange(
                        0,
                        j as int,
                    ).contains(k)) by {
                    lemma_push_contains_one(r0, x, k);
                    lemma_push_contains_one(a@.subrange(0, i0), a@[i0], k);
                    lemma_push_contains_one(b@.subrange(0, j0), b@[j0], k);
                    assert(r0.contains(k) <==> (a@.subrange(0, i0).contains(k) && b@.subrange(
                        0,
                        j0,
                    ).contains(k)));
                };
            }
        }
    }
    proof {
        assert forall|k: i64| r@.contains(k) <==> (a@.contains(k) && b@.contains(k)) by {
            lemma_subrange_contains_one(a@, i as int, k);
            lemma_subrange_contains_one(b@, j as int, k);
            if r@.contains(k) {
                assert(a@.subrange(0, i as int).contains(k));
                assert(b@.subrange(0, j as int).contains(k));
                let ya = choose|y: int| 0 <= y < i as int && a@[y] == k;
                assert(a@[ya] == k);
                let yb = choose|y: int| 0 <= y < j as int && b@[y] == k;
                assert(b@[yb] == k);
            }
            if a@.contains(k) && b@.contains(k) {
                let ia = choose|y: int| 0 <= y < a@.len() && a@[y] == k;
                let ib = choose|y: int| 0 <= y < b@.len() && b@[y] == k;
                if ia >= i as int {
                    assert((i as int) < a@.len());
                    assert(b@[ib] < a@[i as int]);
                    assert(a@[i as int] <= a@[ia]);
                    assert(false);
                }
                if ib >= j as int {
                    assert((j as int) < b@.len());
                    assert(a@[ia] < b@[j as int]);
                    assert(b@[j as int] <= b@[ib]);
                    assert(false);
                }
                assert(a@.subrange(0, i as int)[ia] == k);
                assert(b@.subrange(0, j as int)[ib] == k);
            }
        };
    }
    r
}

/// Merge-join of two sorted key sequences keeping the keys of the first
/// that are not in the second, in ascending order.
#[verifier::rlimit(80)]
fn merge_difference(a: &Vec<i64>, b: &Vec<i64>) -> (r: Vec<i64>)
    requires
        strictly_sorted(a@),
        strictly_sorted(b@),
    ensures
        strictly_sorted(r@),
        forall|k: i64| r@.contains(k) <==> a@.contains(k) && !b@.contains(k),
{
    let mut r: Vec<i64> = Vec::new();
    let mut i: usize = 0;
    let mut j: usize = 0;
    while i < a.len()
        invariant
            i <= a@.len(),
            j <= b@.len(),
            strictly_sorted(a@),
            strictly_sorted(b@),
            strictly_sorted(r@),
            forall|k: i64|
                r@.contains(k) <==> (a@.subrange(0, i as int).contains(k) && !b@.subrange(
                    0,
                    j as int,
                ).contains(k)),
            i < a@.len() ==> (forall|y: int| 0 <= y < j ==> b@[y] < a@[i as int]),
            j < b@.len() ==> (forall|y: int| 0 <= y < i ==> a@[y] < b@[j as int]),
            r@.len() > 0 && i < a@.len() ==> r@.last() < a@[i as int],
            r@.len() > 0 && j < b@.len() ==> r@.last() < b@[j as int],
        decreases a@.len() - i + b@.len() - j,
    {
        let ghost r0 = r@;
        let ghost i0 = i as int;
        let ghost j0 = j as int;
        if j < b.len() && b[j] < a[i] {
            j = j + 1;
            proof {
                lemma_subrange_push(b@, j0);
                assert forall|k: i64|
                    r@.contains(k) <==> (a@.subrange(0, i as int).contains(k) && !b@.subrange(
                        0,
                        j as int,
                    ).contains(k)) by {
                    lemma_push_contains_one(b@.subrange(0, j0), b@[j0], k);
                    assert(r0.contains(k) <==> (a@.subrange(0, i0).contains(k) && !b@.subrange(
                        0,
                        j0,
                    ).contains(k)));
                    if k == b@[j0] && a@.subrange(0, i0).contains(k) {
                        let y = choose|y: int| 0 <= y < i0 && a@.subrange(0, i0)[y] == k;
                        assert(a@[y] == k);
                        assert(a@[y] < b@[j0]);
                        assert(false);
                    }
                };
            }
        } else if j < b.len() && b[j] == a[i] {
            i = i + 1;
            j = j + 1;
            proof {
                lemma_subrange_push(a@, i0);
                lemma_subrange_push(b@, j0);
                assert forall|k: i64|
                    r@.contains(k) <==> (a@.subrange(0, i as int).contains(k) && !b@.subrange(
                        0,
                        j as int,
                    ).contains(k)) by {
                    lemma_push_contains_one(a@.subrange(0, i0), a@[i0], k);
                    lemma_push_contains_one(b@.subrange(0, j0), b@[j0], k);
                    assert(r0.contains(k) <==> (a@.subrange(0, i0).contains(k) && !b@.subrange(
                        0,
                        j0,
                    ).contains(k)));
                };
            }
        } else {
            // The second sequence is exhausted or its head is larger: this
            // key of the first sequence is in no part of the second.
            let x = a[i];
            r.push(x);
            i = i + 1;
            proof {
                lemma_push_sorted(r0, x);
                lemma_subrange_push(a@, i0);
                assert forall|k: i64|
                    r@.contains(k) <==> (a@.subrange(0, i as int).contains(k) && !b@.subrange(
                        0,
                        j as int,
                    ).contains(k)) by {
                    lemma_push_contains_one(r0, x, k);
                    lemma_push_contains_one(a@.subrange(0, i0), a@[i0], k);
                    assert(r0.contains(k) <==> (a@.subrange(0, i0).contains(k) && !b@.subrange(
                        0,
                        j0,
                    ).contains(k)));
                    if k == x && b@.subrange(0, j as int).contains(k) {
                        let y = choose|y: int|
                            0 <= y < j as int && b@.subrange(0, j as int)[y] == k;
                        assert(b@[y] == k);
                        assert(b@[y] < a@[i0]);
                        assert(false);
                    }
                };
            }
        }
    }
    proof {
        assert(a@.subrange(0, i as int) =~= a@);
        assert forall|k: i64| r@.contains(k) <==> (a@.contains(k) && !b@.contains(k)) by {
            if r@.contains(k) {
                assert(a@.subrange(0, i as int).contains(k));
                assert(!b@.subrange(0, j as int).contains(k));
                if b@.contains(k) {
                    let ib = choose|y: int| 0 <= y < b@.len() && b@[y] == k;
                    if ib < j as int {
                        assert(b@.subrange(0, j as int)[ib] == k);
                        assert(false);
                    }
                    assert((j as int) < b@.len());
                    let ya = choose|y: int|
                        0 <= y < i as int && a@.subrange(0, i as int)[y] == k;
                    assert(a@[ya] == k);
                    assert(a@[ya] < b@[j as int]);
                    assert(b@[j as int] <= b@[ib]);
                    assert(false);
                }
            }
            if a@.contains(k) && !b@.contains(k) {
                assert(!b@.subrange(0, j as int).contains(k)) by {
                    if b@.subrange(0, j as int).contains(k) {
                        let y = choose|y: int|
                            0 <= y < j as int && b@.subrange(0, j as int)[y] == k;
                        assert(b@[y] == k);
                        assert(false);
                    }
                };
            }
        };
    }
    r
}

/// Merge of two sorted key sequences keeping the keys present in exactly
/// one of the two, in ascending order.
fn merge_symmetric_difference(a: &Vec<i64>, b: &Vec<i64>) -> (r: Vec<i64>)
    requires
        strictly_sorted(a@),
        strictly_sorted(b@),
    ensures
        strictly_sorted(r@),
        forall|k: i64|
            r@.contains(k) <==> (a@.contains(k) && !b@.contains(k)) || (b@.contains(k)
                && !a@.contains(k)),
{
    let d1 = merge_difference(a, b);
    let d2 = merge_difference(b, a);
    let r = merge_union(&d1, &d2);
    r
}

impl AvlTreeSet {
    /// The values currently stored in the set.
    pub closed spec fn as_set(self) -> Set<i64> {
        self.map@.dom()
    }

    /// Well-formedness of the underlying tree.
    pub closed spec fn well_formed(self) -> bool {
        self.map.well_formed()
    }

    /// The values in ascending order.
    pub closed spec fn spec_key_seq(self) -> Seq<i64> {
        self.map.spec_key_seq()
    }

    /// Creates an empty set.
    /// No memory is allocated until the first item is inserted.
    pub fn new() -> (set: Self)
        ensures
            set.well_formed(),
            set@ == Set::<i64>::empty(),
    {
        let map = AvlTreeMap::<()>::new();
        proof {
            assert(map@.dom() =~= Set::<i64>::empty());
        }
        AvlTreeSet { map }
    }

    /// Returns true if the set contains no elements.
    pub fn is_empty(&self) -> (r: bool)
        ensures
            r == (self@ == Set::<i64>::empty()),
    {
        let r = self.map.is_empty();
        proof {
            if self.map@ == Map::<i64, ()>::empty() {
                assert(self@ =~= Set::<i64>::empty());
            }
            if self@ == Set::<i64>::empty() {
                assert(self.map@ =~= Map::<i64, ()>::empty());
            }
        }
        r
    }

    /// Returns the number of elements in the set.
    pub fn len(&self) -> (n: usize)
        requires
            self.well_formed(),
        ensures
            self@.finite(),
            n == self@.len(),
    {
        self.map.len()
    }

    /// Clears the set, deallocating all memory.
    pub fn clear(&mut self)
        ensures
            final(self).well_formed(),
            final(self)@ == Set::<i64>::empty(),
    {
        self.map.clear();
        proof {
            assert(self@ =~= Set::<i64>::empty());
        }
    }

    /// Returns the value in the set that is equal to the given value, if
    /// present.
    pub fn get(&self, value: &i64) -> (r: Option<i64>)
        requires
            self.well_formed(),
        ensures
            r == (if self@.contains(*value) {
                Some(*value)
            } else {
                None::<i64>
            }),
    {
        match self.map.get_key_value(value) {
            None => None,
            Some((k, _)) => Some(k),
        }
    }

    /// Returns true if the set contains a value.
    pub fn contains(&self, value: &i64) -> (r: bool)
        requires
            self.well_formed(),
        ensures
            r == self@.contains(*value),
    {
        self.map.contains_key(value)
    }

    /// Inserts a value into the set. Returns whether the value is new.
    pub fn insert(&mut self, value: i64) -> (r: bool)
        requires
            old(self).well_formed(),
            old(self)@.len() < usize::MAX,
        ensures
            final(self).well_formed(),
            final(self)@ == old(self)@.insert(value),
            r == !old(self)@.contains(value),
            final(self)@.finite(),
            final(self)@.len() == old(self)@.len() + (if old(self)@.contains(value) {
                0int
            } else {
                1int
            }),
    {
        let prev = self.map.insert(value, ());
        proof {
            assert(self@ =~= old(self)@.insert(value));
        }
        prev.is_none()
    }

    /// Removes a value from the set.
    /// Returns whether the value was previously in the set.
    pub fn remove(&mut self, value: &i64) -> (r: bool)
        requires
            old(self).well_formed(),
        ensures
            final(self).well_formed(),
            final(self)@ == old(self)@.remove(*value),
            r == old(self)@.contains(*value),
            final(self)@.finite(),
            old(self)@.finite(),
            final(self)@.len() == old(self)@.len() - (if old(self)@.contains(*value) {
                1int
            } else {
                0int
            }),
    {
        let prev = self.map.remove(value);
        proof {
            assert(self@ =~= old(self)@.remove(*value));
        }
        prev.is_some()
    }

    /// Removes a value from the set.
    /// Returns the value if it was previously in the set.
    pub fn take(&mut self, value: &i64) -> (r: Option<i64>)
        requires
            old(self).well_formed(),
        ensures
            final(self).well_formed(),
            final(self)@ == old(self)@.remove(*value),
            r == (if old(self)@.contains(*value) {
                Some(*value)
            } else {
                None::<i64>
            }),
    {
        let prev = self.map.remove_entry(value);
        proof {
            assert(self@ =~= old(self)@.remove(*value));
        }
        match prev {
            None => None,
            Some((k, _)) => Some(k),
        }
    }

    /// Moves all values from other into self, leaving other empty.
    pub fn append(&mut self, other: &mut Self)
        requires
            old(self).well_formed(),
            old(other).well_formed(),
            old(self)@.len() + old(other)@.len() <= usize::MAX,
        ensures
            final(self).well_formed(),
            final(other).well_formed(),
            final(self)@ == old(self)@ + old(other)@,
            final(other)@ == Set::<i64>::empty(),
    {
        self.map.append(&mut other.map);
        proof {
            assert(self@ =~= old(self)@ + old(other)@);
            assert(other@ =~= Set::<i64>::empty());
        }
    }

    /// Walks the whole tree and re-derives the consistency checks; every
    /// check is discharged by the verifier, so the walk cannot fail.
    pub fn check_consistency(&self)
        requires
            self.well_formed(),
    {
        self.map.check_consistency()
    }

    /// The sorted values of the set, used by the merge-joins.
    fn sorted_keys(&self) -> (ks: Vec<i64>)
        requires
            self.well_formed(),
        ensures
            ks@ == self.spec_key_seq(),
            strictly_sorted(ks@),
            forall|k: i64| ks@.contains(k) <==> self@.contains(k),
    {
        let ks = self.map.key_vec();
        proof {
            assert forall|k: i64| ks@.contains(k) <==> self@.contains(k) by {
                if ks@.contains(k) {
                    let i = choose|i: int| 0 <= i < ks@.len() && ks@[i] == k;
                    assert(self.map@.dom().contains(ks@[i]));
                }
                if self@.contains(k) {
                    let i = choose|i: int| 0 <= i < ks@.len() && ks@[i] == k;
                    assert(ks@[i] == k);
                }
            };
        }
        ks
    }
}


impl Iter {
    /// The values not yet handed out, in ascending order.
    pub closed spec fn remaining(self) -> Seq<i64> {
        self.keys@
    }

    /// Hands out the smallest remaining value.
    pub fn next(&mut self) -> (r: Option<i64>)
        ensures
            old(self).remaining().len() == 0 ==> r is None && final(self).remaining() == old(self).remaining(),
            old(self).remaining().len() > 0 ==> r == Some(old(self).remaining()[0]) && final(self).remaining() == old(self).remaining().drop_first(),
    {
        if self.keys.len() > 0 {
            let k = self.keys.remove(0);
            proof {
                assert(self.keys@ =~= old(self).remaining().drop_first());
            }
            Some(k)
        } else {
            None
        }
    }

    /// Hands out the largest remaining value.
    pub fn next_back(&mut self) -> (r: Option<i64>)
        ensures
            old(self).remaining().len() == 0 ==> r is None && final(self).remaining() == old(self).remaining(),
            old(self).remaining().len() > 0 ==> r == Some(old(self).remaining().last()) && final(self).remaining() == old(self).remaining().drop_last(),
    {
        self.keys.pop()
    }

    /// Peeks at the smallest remaining value without advancing.
    pub fn peek(&self) -> (r: Option<i64>)
        ensures
            r is Some <==> self.remaining().len() > 0,
            r is Some ==> r == Some(self.remaining()[0]),
    {
        if self.keys.len() > 0 {
            Some(self.keys[0])
        } else {
            None
        }
    }
}

impl Range {
    /// The values not yet handed out, in ascending order.
    pub closed spec fn remaining(self) -> Seq<i64> {
        self.keys@
    }

    /// Hands out the smallest remaining value.
    pub fn next(&mut self) -> (r: Option<i64>)
        ensures
            old(self).remaining().len() == 0 ==> r is None && final(self).remaining() == old(self).remaining(),
            old(self).remaining().len() > 0 ==> r == Some(old(self).remaining()[0]) && final(self).remaining() == old(self).remaining().drop_first(),
    {
        if self.keys.len() > 0 {
            let k = self.keys.remove(0);
            proof {
                assert(self.keys@ =~= old(self).remaining().drop_first());
            }
            Some(k)
        } else {
            None
        }
    }

    /// Hands out the largest remaining value.
    pub fn next_back(&mut self) -> (r: Option<i64>)
        ensures
            old(self).remaining().len() == 0 ==> r is None && final(self).remaining() == old(self).remaining(),
            old(self).remaining().len() > 0 ==> r == Some(old(self).remaining().last()) && final(self).remaining() == old(self).remaining().drop_last(),
    {
        self.keys.pop()
    }

    /// Peeks at the smallest remaining value without advancing.
    pub fn peek(&self) -> (r: Option<i64>)
        ensures
            r is Some <==> self.remaining().len() > 0,
            r is Some ==> r == Some(self.remaining()[0]),
    {
        if self.keys.len() > 0 {
            Some(self.keys[0])
        } else {
            None
        }
    }
}

impl IntoIter {
    /// The values not yet handed out, in ascending order.
    pub closed spec fn remaining(self) -> Seq<i64> {
        self.keys@
    }

    /// Hands out the smallest remaining value.
    pub fn next(&mut self) -> (r: Option<i64>)
        ensures
            old(self).remaining().len() == 0 ==> r is None && final(self).remaining() == old(self).remaining(),
            old(self).remaining().len() > 0 ==> r == Some(old(self).remaining()[0]) && final(self).remaining() == old(self).remaining().drop_first(),
    {
        if self.keys.len() > 0 {
            let k = self.keys.remove(0);
            proof {
                assert(self.keys@ =~= old(self).remaining().drop_first());
            }
            Some(k)
        } else {
            None
        }
    }

    /// Hands out the largest remaining value.
    pub fn next_back(&mut self) -> (r: Option<i64>)
        ensures
            old(self).remaining().len() == 0 ==> r is None && final(self).remaining() == old(self).remaining(),
            old(self).remaining().len() > 0 ==> r == Some(old(self).remaining().last()) && final(self).remaining() == old(self).remaining().drop_last(),
    {
        self.keys.pop()
    }
}

impl Union {
    /// The values not yet handed out, in ascending order.
    pub closed spec fn remaining(self) -> Seq<i64> {
        self.keys@
    }

    /// Builds the union iterator by a sorted merge of the two sets.
    pub fn new(lhs: &AvlTreeSet, rhs: &AvlTreeSet) -> (u: Union)
        requires
            lhs.well_formed(),
            rhs.well_formed(),
        ensures
            strictly_sorted(u.remaining()),
            forall|k: i64| u.remaining().contains(k) <==> lhs@.contains(k) || rhs@.contains(k),
    {
        let a = lhs.sorted_keys();
        let b = rhs.sorted_keys();
        Union { keys: merge_union(&a, &b) }
    }

    /// Hands out the smallest remaining value.
    pub fn next(&mut self) -> (r: Option<i64>)
        ensures
            old(self).remaining().len() == 0 ==> r is None && final(self).remaining() == old(self).remaining(),
            old(self).remaining().len() > 0 ==> r == Some(old(self).remaining()[0]) && final(self).remaining() == old(self).remaining().drop_first(),
    {
        if self.keys.len() > 0 {
            let k = self.keys.remove(0);
            proof {
                assert(self.keys@ =~= old(self).remaining().drop_first());
            }
            Some(k)
        } else {
            None
        }
    }
}

impl Intersection {
    /// The values not yet handed out, in ascending order.
    pub closed spec fn remaining(self) -> Seq<i64> {
        self.keys@
    }

    /// Builds the intersection iterator by a merge-join of the two sets.
    pub fn new(lhs: &AvlTreeSet, rhs: &AvlTreeSet) -> (u: Intersection)
        requires
            lhs.well_formed(),
            rhs.well_formed(),
        ensures
            strictly_sorted(u.remaining()),
            forall|k: i64| u.remaining().contains(k) <==> lhs@.contains(k) && rhs@.contains(k),
    {
        let a = lhs.sorted_keys();
        let b = rhs.sorted_keys();
        Intersection { keys: merge_intersection(&a, &b) }
    }

    /// Hands out the smallest remaining value.
    pub fn next(&mut self) -> (r: Option<i64>)
        ensures
            old(self).remaining().len() == 0 ==> r is None && final(self).remaining() == old(self).remaining(),
            old(self).remaining().len() > 0 ==> r == Some(old(self).remaining()[0]) && final(self).remaining() == old(self).remaining().drop_first(),
    {
        if self.keys.len() > 0 {
            let k = self.keys.remove(0);
            proof {
                assert(self.keys@ =~= old(self).remaining().drop_first());
            }
            Some(k)
        } else {
            None
        }
    }
}

impl Difference {
    /// The values not yet handed out, in ascending order.
    pub closed spec fn remaining(self) -> Seq<i64> {
        self.keys@
    }

    /// Builds the difference iterator by a merge-join of the two sets.
    pub fn new(lhs: &AvlTreeSet, rhs: &AvlTreeSet) -> (u: Difference)
        requires
            lhs.well_formed(),
            rhs.well_formed(),
        ensures
            strictly_sorted(u.remaining()),
            forall|k: i64| u.remaining().contains(k) <==> lhs@.contains(k) && !rhs@.contains(k),
    {
        let a = lhs.sorted_keys();
        let b = rhs.sorted_keys();
        Difference { keys: merge_difference(&a, &b) }
    }

    /// Hands out the smallest remaining value.
    pub fn next(&mut self) -> (r: Option<i64>)
        ensures
            old(self).remaining().len() == 0 ==> r is None && final(self).remaining() == old(self).remaining(),
            old(self).remaining().len() > 0 ==> r == Some(old(self).remaining()[0]) && final(self).remaining() == old(self).remaining().drop_first(),
    {
        if self.keys.len() > 0 {
            let k = self.keys.remove(0);
            proof {
                assert(self.keys@ =~= old(self).remaining().drop_first());
            }
            Some(k)
        } else {
            None
        }
    }
}

impl SymmetricDifference {
    /// The values not yet handed out, in ascending order.
    pub closed spec fn remaining(self) -> Seq<i64> {
        self.keys@
    }

    /// Builds the symmetric-difference iterator by a sorted merge of the
    /// two sets.
    pub fn new(lhs: &AvlTreeSet, rhs: &AvlTreeSet) -> (u: SymmetricDifference)
        requires
            lhs.well_formed(),
            rhs.well_formed(),
        ensures
            strictly_sorted(u.remaining()),
            forall|k: i64|
                u.remaining().contains(k) <==> (lhs@.contains(k) && !rhs@.contains(k)) || (
                rhs@.contains(k) && !lhs@.contains(k)),
    {
        let a = lhs.sorted_keys();
        let b = rhs.sorted_keys();
        SymmetricDifference { keys: merge_symmetric_difference(&a, &b) }
    }

    /// Hands out the smallest remaining value.
    pub fn next(&mut self) -> (r: Option<i64>)
        ensures
            old(self).remaining().len() == 0 ==> r is None && final(self).remaining() == old(self).remaining(),
            old(self).remaining().len() > 0 ==> r == Some(old(self).remaining()[0]) && final(self).remaining() == old(self).remaining().drop_first(),
    {
        if self.keys.len() > 0 {
            let k = self.keys.remove(0);
            proof {
                assert(self.keys@ =~= old(self).remaining().drop_first());
            }
            Some(k)
        } else {
            None
        }
    }
}

impl AvlTreeSet {
    /// Gets an iterator over the values of the set in sorted order.
    pub fn iter(&self) -> (it: Iter)
        requires
            self.well_formed(),
        ensures
            it.remaining() == self.spec_key_seq(),
            strictly_sorted(it.remaining()),
            forall|k: i64| it.remaining().contains(k) <==> self@.contains(k),
    {
        let ks = self.sorted_keys();
        Iter { keys: ks }
    }

    /// Turns the set into an owning iterator over its values.
    pub fn into_iter(self) -> (it: IntoIter)
        requires
            self.well_formed(),
        ensures
            it.remaining() == self.spec_key_seq(),
            strictly_sorted(it.remaining()),
            forall|k: i64| it.remaining().contains(k) <==> self@.contains(k),
    {
        let ks = self.sorted_keys();
        IntoIter { keys: ks }
    }

    /// Gets an iterator over a sub-range of values in the set in sorted
    /// order. The range must be valid: its start must not sort after its
    /// end, and a range whose bounds both exclude one and the same key is
    /// refused.
    pub fn range(&self, start: Bound, end: Bound) -> (it: Range)
        requires
            self.well_formed(),
            valid_range(start, end),
        ensures
            it.remaining() == self.spec_key_seq().filter((|k: i64| in_bounds(k, start, end))),
    {
        Range { keys: self.map.range_keys(start, end) }
    }

    /// Gets an iterator over the values of the union set,
    /// i.e., all values in `self` or `other`, without duplicates,
    /// in ascending order.
    pub fn union(&self, other: &Self) -> (u: Union)
        requires
            self.well_formed(),
            other.well_formed(),
        ensures
            strictly_sorted(u.remaining()),
            forall|k: i64| u.remaining().contains(k) <==> self@.contains(k) || other@.contains(k),
    {
        Union::new(self, other)
    }

    /// Gets an iterator over the values of the intersection set,
    /// i.e., all values that are both in `self` and `other`,
    /// in ascending order.
    pub fn intersection(&self, other: &Self) -> (u: Intersection)
        requires
            self.well_formed(),
            other.well_formed(),
        ensures
            strictly_sorted(u.remaining()),
            forall|k: i64| u.remaining().contains(k) <==> self@.contains(k) && other@.contains(k),
    {
        Intersection::new(self, other)
    }

    /// Gets an iterator over the values of the difference between two sets,
    /// i.e., all values that are in `self` but not in `other`,
    /// in ascending order.
    pub fn difference(&self, other: &Self) -> (u: Difference)
        requires
            self.well_formed(),
            other.well_formed(),
        ensures
            strictly_sorted(u.remaining()),
            forall|k: i64| u.remaining().contains(k) <==> self@.contains(k) && !other@.contains(k),
    {
        Difference::new(self, other)
    }

    /// Gets an iterator over the values of the symmetric difference of two
    /// sets, i.e., all values in `self` or `other`, but not in both,
    /// in ascending order.
    pub fn symmetric_difference(&self, other: &Self) -> (u: SymmetricDifference)
        requires
            self.well_formed(),
            other.well_formed(),
        ensures
            strictly_sorted(u.remaining()),
            forall|k: i64|
                u.remaining().contains(k) <==> (self@.contains(k) && !other@.contains(k)) || (
                other@.contains(k) && !self@.contains(k)),
    {
        SymmetricDifference::new(self, other)
    }

    /// Returns `true` if `self` has no elements in common with `other`.
    /// This is equivalent to checking for an empty intersection.
    pub fn is_disjoint(&self, other: &Self) -> (r: bool)
        requires
            self.well_formed(),
            other.well_formed(),
        ensures
            r == self@.disjoint(other@),
    {
        let mut inter = self.intersection(other);
        let first = inter.next();
        proof {
            if first is Some {
                assert(self@.contains(first.unwrap()) && other@.contains(first.unwrap()));
            } else {
                assert forall|k: i64| self@.contains(k) implies !other@.contains(k) by {
                    assert(!inter.remaining().contains(k));
                };
            }
        }
        first.is_none()
    }

    /// Returns `true` if the set is a subset of another,
    /// i.e., `other` contains at least all the values in `self`.
    pub fn is_subset(&self, other: &Self) -> (r: bool)
        requires
            self.well_formed(),
            other.well_formed(),
        ensures
            r == self@.subset_of(other@),
    {
        let a = self.sorted_keys();
        let b = other.sorted_keys();
        let d = merge_difference(&a, &b);
        proof {
            if d@.len() == 0 {
                assert forall|k: i64| self@.contains(k) implies other@.contains(k) by {
                    assert(!d@.contains(k));
                };
            } else {
                assert(d@.contains(d@[0]));
                assert(self@.contains(d@[0]) && !other@.contains(d@[0]));
            }
        }
        d.len() == 0
    }

    /// Returns `true` if the set is a superset of another,
    /// i.e., `self` contains at least all the values in `other`.
    pub fn is_superset(&self, other: &Self) -> (r: bool)
        requires
            self.well_formed(),
            other.well_formed(),
        ensures
            r == other@.subset_of(self@),
    {
        other.is_subset(self)
    }

    /// Splits the set in two: values not below the given one move into the
    /// returned set, the rest stay.
    #[verifier::rlimit(80)]
    pub fn split_off(&mut self, value: &i64) -> (off: Self)
        requires
            old(self).well_formed(),
        ensures
            final(self).well_formed(),
            off.well_formed(),
            forall|k: i64|
                final(self)@.contains(k) <==> old(self)@.contains(k) && k < *value,
            forall|k: i64| off@.contains(k) <==> old(self)@.contains(k) && k >= *value,
    {
        let ks = self.sorted_keys();
        let _total = self.len();
        let mut off = AvlTreeSet::new();
        let mut idx: usize = 0;
        while idx < ks.len()
            invariant
                idx <= ks@.len(),
                self.well_formed(),
                off.well_formed(),
                strictly_sorted(ks@),
                old(self)@.len() <= usize::MAX,
                forall|k: i64| ks@.contains(k) <==> old(self)@.contains(k),
                forall|k: i64|
                    self@.contains(k) <==> (old(self)@.contains(k) && !(k >= *value && (
                    exists|y: int| 0 <= y < idx && ks@[y] == k))),
                forall|k: i64|
                    off@.contains(k) <==> (old(self)@.contains(k) && k >= *value && (exists|y: int|
                        0 <= y < idx && ks@[y] == k)),
                self@.finite(),
                off@.finite(),
                old(self)@.finite(),
                off@.len() + self@.len() == old(self)@.len(),
            decreases ks@.len() - idx,
        {
            let k = ks[idx];
            proof {
                assert(ks@.contains(k)) by {
                    assert(ks@[idx as int] == k);
                };
            }
            if k >= *value {
                let ghost self_entry = self@;
                proof {
                    assert(self@.contains(k)) by {
                        if exists|y: int| 0 <= y < idx && ks@[y] == k {
                            let y = choose|y: int| 0 <= y < idx && ks@[y] == k;
                            assert(ks@[y] < ks@[idx as int]);
                        }
                    };
                }
                let was = self.remove(&k);
                proof {
                    assert(was);
                    assert(self_entry.len() >= 1) by {
                        assert(self@.len() == self_entry.len() - 1);
                    };
                    assert(off@.len() < old(self)@.len());
                }
                let _ = off.insert(k);
            }
            idx = idx + 1;
            proof {
                assert forall|k2: i64|
                    self@.contains(k2) <==> (old(self)@.contains(k2) && !(k2 >= *value && (
                    exists|y: int| 0 <= y < idx && ks@[y] == k2))) by {
                    if k2 == k {
                        assert(ks@[(idx - 1) as int] == k2);
                    } else {
                        if exists|y: int| 0 <= y < idx && ks@[y] == k2 {
                            let y = choose|y: int| 0 <= y < idx && ks@[y] == k2;
                            assert(y < idx - 1);
                        }
                    }
                };
                assert forall|k2: i64|
                    off@.contains(k2) <==> (old(self)@.contains(k2) && k2 >= *value && (
                    exists|y: int| 0 <= y < idx && ks@[y] == k2)) by {
                    if k2 == k {
                        assert(ks@[(idx - 1) as int] == k2);
                    } else {
                        if exists|y: int| 0 <= y < idx && ks@[y] == k2 {
                            let y = choose|y: int| 0 <= y < idx && ks@[y] == k2;
                            assert(y < idx - 1);
                        }
                    }
                };
            }
        }
        proof {
            assert forall|k: i64|
                final(self)@.contains(k) <==> old(self)@.contains(k) && k < *value by {
                if old(self)@.contains(k) {
                    assert(ks@.contains(k));
                    let y = choose|y: int| 0 <= y < ks@.len() && ks@[y] == k;
                    assert(0 <= y < idx && ks@[y] == k);
                }
            };
            assert forall|k: i64| off@.contains(k) <==> old(self)@.contains(k) && k
                >= *value by {
                if old(self)@.contains(k) {
                    assert(ks@.contains(k));
                    let y = choose|y: int| 0 <= y < ks@.len() && ks@[y] == k;
                    assert(0 <= y < idx && ks@[y] == k);
                }
            };
        }
        off
    }
}

/// The view of a well-formed set is finite.
pub proof fn lemma_set_view_finite(s: AvlTreeSet)
    requires
        s.well_formed(),
    ensures
        s@.finite(),
{
    crate::map::lemma_map_view_finite(s.map);
}

impl View for AvlTreeSet {
    type V = Set<i64>;

    open spec fn view(&self) -> Set<i64> {
        self.as_set()
    }
}

impl Default for AvlTreeSet {
    /// Creates an empty set.
    fn default() -> (set: Self)
        ensures
            set.well_formed(),
            set@ == Set::<i64>::empty(),
    {
        Self::new()
    }
}

} // verus!
