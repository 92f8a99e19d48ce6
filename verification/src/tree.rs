//! A height-balanced binary search tree of keys: the bare tree engine
//! behind the map, offered with a set-like face of its own.

use vstd::prelude::*;

use crate::map::AvlTreeMap;

verus! {

/// A height-balanced binary search tree holding a set of `i64` keys.
pub struct Tree {
    map: AvlTreeMap<()>,
}

impl Tree {
    /// The keys currently stored in the tree.
    pub closed spec fn as_set(self) -> Set<i64> {
        self.map@.dom()
    }

    /// Well-formedness of the tree: ordering, heights, balance and count.
    pub closed spec fn well_formed(self) -> bool {
        self.map.well_formed()
    }

    /// Number of levels of the tree: 0 when empty, 1 for a single node.
    pub closed spec fn spec_levels(self) -> nat {
        self.map.spec_levels()
    }

    /// The keys in pre-order.
    pub closed spec fn spec_pre_seq(self) -> Seq<i64> {
        self.map.spec_pre_seq()
    }

    /// The keys in post-order.
    pub closed spec fn spec_post_seq(self) -> Seq<i64> {
        self.map.spec_post_seq()
    }

    /// Creates an empty tree.
    pub fn new() -> (tree: Self)
        ensures
            tree.well_formed(),
            tree@ == Set::<i64>::empty(),
            tree.spec_levels() == 0,
    {
        let map = AvlTreeMap::<()>::new();
        proof {
            assert(map@.dom() =~= Set::<i64>::empty());
        }
        Tree { map }
    }

    /// Returns true if the tree contains no keys.
    pub fn is_empty(&self) -> (r: bool)
        ensures
            r == (self@ == Set::<i64>::empty()),
    {
        let r = self.map.is_empty();
        proof {
            if self.map@ == Map::<i64, ()>::empty() {
                assert(self@ =~= Set::<i64>::empty());
            }
            if self@ == Set::<i64>::empty() {
                assert(self.map@ =~= Map::<i64, ()>::empty());
            }
        }
        r
    }

    /// Returns the number of keys in the tree.
    pub fn len(&self) -> (n: usize)
        requires
            self.well_formed(),
        ensures
            self@.finite(),
            n == self@.len(),
    {
        self.map.len()
    }

    /// Returns the height of the tree: the number of links from the root to
    /// the deepest node, or 0 for an empty tree.
    pub fn height(&self) -> (h: usize)
        requires
            self.well_formed(),
        ensures
            h == (if self.spec_levels() == 0 {
                0int
            } else {
                self.spec_levels() - 1
            }),
    {
        self.map.height()
    }

    /// Clears the tree, deallocating all memory.
    pub fn clear(&mut self)
        ensures
            final(self).well_formed(),
            final(self)@ == Set::<i64>::empty(),
            final(self).spec_levels() == 0,
    {
        self.map.clear();
        proof {
            assert(self@ =~= Set::<i64>::empty());
        }
    }

    /// Returns the stored key equal to the given one, if present.
    pub fn get(&self, key: &i64) -> (r: Option<i64>)
        requires
            self.well_formed(),
        ensures
            r == (if self@.contains(*key) {
                Some(*key)
            } else {
                None::<i64>
            }),
    {
        match self.map.get_key_value(key) {
            None => None,
            Some((k, _)) => Some(k),
        }
    }

    /// Inserts a key into the tree. Returns whether the key is new.
    pub fn insert(&mut self, key: i64) -> (r: bool)
        requires
            old(self).well_formed(),
            old(self)@.len() < usize::MAX,
        ensures
            final(self).well_formed(),
            final(self)@ == old(self)@.insert(key),
            r == !old(self)@.contains(key),
    {
        let prev = self.map.insert(key, ());
        proof {
            assert(self@ =~= old(self)@.insert(key));
        }
        prev.is_none()
    }

    /// Removes a key from the tree.
    /// Returns whether the key was previously in the tree.
    pub fn remove(&mut self, key: &i64) -> (r: bool)
        requires
            old(self).well_formed(),
        ensures
            final(self).well_formed(),
            final(self)@ == old(self)@.remove(*key),
            r == old(self)@.contains(*key),
    {
        let prev = self.map.remove(key);
        proof {
            assert(self@ =~= old(self)@.remove(*key));
        }
        prev.is_some()
    }

    /// Walks the whole tree and re-derives the consistency checks; every
    /// check is discharged by the verifier, so the walk cannot fail.
    pub fn check_consistency(&self)
        requires
            self.well_formed(),
    {
        self.map.check_consistency()
    }

    /// Gets the keys of the tree in pre-order.
    pub fn preorder(&self) -> (ks: Vec<i64>)
        requires
            self.well_formed(),
        ensures
            ks@ == self.spec_pre_seq(),
            ks@.len() == self@.len(),
    {
        self.map.preorder()
    }

    /// Gets the keys of the tree in post-order.
    pub fn postorder(&self) -> (ks: Vec<i64>)
        requires
            self.well_formed(),
        ensures
            ks@ == self.spec_post_seq(),
            ks@.len() == self@.len(),
    {
        self.map.postorder()
    }
}

/// An empty tree is exactly one of zero levels.
pub proof fn lemma_levels_zero_iff_empty(t: Tree)
    requires
        t.well_formed(),
    ensures
        t.spec_levels() == 0 <==> t@ == Set::<i64>::empty(),
{
    crate::map::lemma_levels_zero_iff_empty(t.map);
    if t.map@ == Map::<i64, ()>::empty() {
        assert(t@ =~= Set::<i64>::empty());
    }
    if t@ == Set::<i64>::empty() {
        assert(t.map@ =~= Map::<i64, ()>::empty());
    }
}

/// Size-height bounds for the tree, as for the map it is built on.
pub proof fn lemma_size_height_bounds(t: Tree)
    requires
        t.well_formed(),
    ensures
        crate::map::min_size(t.spec_levels()) <= t@.len(),
        t@.len() + 1 <= crate::map::pow2(t.spec_levels()),
{
    crate::map::lemma_size_height_bounds(t.map);
}

impl View for Tree {
    type V = Set<i64>;

    open spec fn view(&self) -> Set<i64> {
        self.as_set()
    }
}

impl Default for Tree {
    /// Creates an empty tree.
    fn default() -> (tree: Self)
        ensures
            tree.well_formed(),
            tree@ == Set::<i64>::empty(),
            tree.spec_levels() == 0,
    {
        Self::new()
    }
}

} // verus!
