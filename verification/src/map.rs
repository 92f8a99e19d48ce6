//! An ordered map implemented with an AVL tree.

use vstd::prelude::*;

use crate::map::node::Node;
use crate::map::node::lemma_count_is_dom_len;
use crate::map::node::lemma_key_seq_is_kv_keys;
use crate::map::node::lemma_kv_seq_props;

mod node;
pub mod set;

verus! {

/// An ordered map from `i64` keys to values, implemented with an AVL tree.
///
/// The abstract view of the map is a `vstd` `Map<i64, V>`; every operation is
/// specified against that view. All public operations keep the tree well
/// formed: ordered, with correct stored heights, balanced, and with an
/// accurate node count.
pub struct AvlTreeMap<V> {
    root: Option<Box<Node<V>>>,
    num_nodes: usize,
}

/// Strictly ascending order of a key sequence.
pub open spec fn strictly_sorted(s: Seq<i64>) -> bool {
    forall|i: int, j: int| 0 <= i < j < s.len() ==> s[i] < s[j]
}

/// One end of a key range: unbounded, or bounded by a key that is itself
/// inside or outside the range.
#[derive(Clone, Copy)]
pub enum Bound {
    Unbounded,
    Included(i64),
    Excluded(i64),
}

/// Whether a key lies above the start bound.
pub open spec fn above_start(k: i64, start: Bound) -> bool {
    match start {
        Bound::Unbounded => true,
        Bound::Included(a) => k >= a,
        Bound::Excluded(a) => k > a,
    }
}

/// Whether a key lies below the end bound.
pub open spec fn below_end(k: i64, end: Bound) -> bool {
    match end {
        Bound::Unbounded => true,
        Bound::Included(b) => k <= b,
        Bound::Excluded(b) => k < b,
    }
}

/// Whether a key lies within the range.
pub open spec fn in_bounds(k: i64, start: Bound, end: Bound) -> bool {
    above_start(k, start) && below_end(k, end)
}

/// A range is rejected when its start sorts after its end, or when both
/// bounds exclude one and the same key.
pub open spec fn valid_range(start: Bound, end: Bound) -> bool {
    match (start, end) {
        (Bound::Excluded(a), Bound::Excluded(b)) => a < b,
        (Bound::Included(a), Bound::Included(b)) => a <= b,
        (Bound::Included(a), Bound::Excluded(b)) => a <= b,
        (Bound::Excluded(a), Bound::Included(b)) => a <= b,
        _ => true,
    }
}

/// The smallest number of nodes a balanced tree with the given number of
/// levels can have.
pub open spec fn min_size(h: nat) -> nat
    decreases h,
{
    if h == 0 {
        0
    } else if h == 1 {
        1
    } else {
        1 + min_size((h - 1) as nat) + min_size((h - 2) as nat)
    }
}

/// Powers of two, for the largest number of nodes a tree with the given
/// number of levels can have.
pub open spec fn pow2(h: nat) -> nat
    decreases h,
{
    if h == 0 {
        1
    } else {
        2 * pow2((h - 1) as nat)
    }
}

impl<V> AvlTreeMap<V> {
    /// The key-value pairs currently stored in the map.
    pub closed spec fn as_map(self) -> Map<i64, V> {
        Node::<V>::optional_as_map(self.root)
    }

    /// Well-formedness: the tree is ordered, stored heights are correct, the
    /// AVL balance condition holds, and `num_nodes` counts the nodes.
    pub closed spec fn well_formed(self) -> bool {
        &&& Node::<V>::optional_well_formed(self.root)
        &&& self.num_nodes == Node::<V>::count(self.root)
    }

    /// Number of levels of the tree: 0 when empty, 1 for a single node.
    pub closed spec fn spec_levels(self) -> nat {
        Node::<V>::opt_height(self.root)
    }

    /// The entries in ascending key order.
    pub closed spec fn spec_kv_seq(self) -> Seq<(i64, V)> {
        Node::<V>::optional_kv_seq(self.root)
    }

    /// The keys in ascending order.
    pub closed spec fn spec_key_seq(self) -> Seq<i64> {
        Node::<V>::optional_key_seq(self.root)
    }

    /// Creates an empty map.
    /// No memory is allocated until the first item is inserted.
    pub fn new() -> (map: Self)
        ensures
            map.well_formed(),
            map@ == Map::<i64, V>::empty(),
            map.spec_levels() == 0,
    {
        AvlTreeMap { root: None, num_nodes: 0 }
    }

    /// Returns true if the map contains no elements.
    pub fn is_empty(&self) -> (r: bool)
        ensures
            r == (self@ == Map::<i64, V>::empty()),
    {
        proof {
            if self.root is Some {
                assert(self@.dom().contains(self.root.unwrap().key));
            }
            assert(self.root is None ==> self@ =~= Map::<i64, V>::empty());
        }
        self.root.is_none()
    }

    /// Returns the number of elements in the map.
    pub fn len(&self) -> (n: usize)
        requires
            self.well_formed(),
        ensures
            self@.dom().finite(),
            n == self@.dom().len(),
    {
        proof {
            lemma_count_is_dom_len(self.root);
        }
        self.num_nodes
    }

    /// Returns the height of the tree: the number of links from the root to
    /// the deepest node, or 0 for an empty tree.
    pub fn height(&self) -> (h: usize)
        requires
            self.well_formed(),
        ensures
            h == (if self.spec_levels() == 0 {
                0int
            } else {
                self.spec_levels() - 1
            }),
    {
        match &self.root {
            None => 0,
            Some(root) => root.height - 1,
        }
    }

    /// Clears the map, deallocating all memory.
    pub fn clear(&mut self)
        ensures
            final(self).well_formed(),
            final(self)@ == Map::<i64, V>::empty(),
            final(self).spec_levels() == 0,
    {
        proof {
            assert(Node::<V>::optional_as_map(None::<Box<Node<V>>>) =~= Map::<i64, V>::empty());
        }
        self.root = None;
        self.num_nodes = 0;
    }

    /// Returns a reference to the value corresponding to the key.
    pub fn get(&self, key: &i64) -> (r: Option<&V>)
        requires
            self.well_formed(),
        ensures
            r == (if self@.dom().contains(*key) {
                Some(&self@[*key])
            } else {
                None::<&V>
            }),
    {
        Node::<V>::get_from_optional(&self.root, *key)
    }

    /// Returns the key together with a reference to the stored value.
    pub fn get_key_value(&self, key: &i64) -> (r: Option<(i64, &V)>)
        requires
            self.well_formed(),
        ensures
            r == (if self@.dom().contains(*key) {
                Some((*key, &self@[*key]))
            } else {
                None::<(i64, &V)>
            }),
    {
        match Node::<V>::get_from_optional(&self.root, *key) {
            None => None,
            Some(v) => Some((*key, v)),
        }
    }

    /// Returns true if the key is in the map, else false.
    pub fn contains_key(&self, key: &i64) -> (r: bool)
        requires
            self.well_formed(),
        ensures
            r == self@.dom().contains(*key),
    {
        Node::<V>::get_from_optional(&self.root, *key).is_some()
    }

    /// Returns a reference to the value for the given key, which must be
    /// present in the map.
    pub fn index(&self, key: &i64) -> (v: &V)
        requires
            self.well_formed(),
            self@.dom().contains(*key),
        ensures
            v == &self@[*key],
    {
        Node::<V>::get_from_optional(&self.root, *key).unwrap()
    }

    /// Inserts a key-value pair into the map.
    /// Returns None if the key was not in the map.
    /// Updates the value if the key was already in the map and returns the
    /// old value; neither the size nor the height of the tree changes then.
    pub fn insert(&mut self, key: i64, value: V) -> (prev: Option<V>)
        requires
            old(self).well_formed(),
            old(self)@.dom().len() < usize::MAX,
        ensures
            final(self).well_formed(),
            final(self)@ == old(self)@.insert(key, value),
            prev == (if old(self)@.dom().contains(key) {
                Some(old(self)@[key])
            } else {
                None::<V>
            }),
            final(self)@.dom().len() == old(self)@.dom().len() + (if old(self)@.dom().contains(
                key,
            ) {
                0int
            } else {
                1int
            }),
            final(self)@.dom().finite(),
            old(self)@.dom().finite(),
            old(self)@.dom().contains(key) ==> final(self).spec_levels()
                == old(self).spec_levels(),
            !old(self)@.dom().contains(key) ==> (final(self).spec_levels()
                == old(self).spec_levels() || final(self).spec_levels() == old(self).spec_levels()
                + 1),
    {
        proof {
            lemma_count_is_dom_len(self.root);
        }
        let prev = Node::<V>::insert_into_optional(&mut self.root, key, value);
        if prev.is_none() {
            self.num_nodes = self.num_nodes + 1;
        }
        proof {
            lemma_count_is_dom_len(self.root);
        }
        prev
    }

    /// Removes a key from the map.
    /// Returns the value at the key if the key was previously in the map.
    pub fn remove(&mut self, key: &i64) -> (r: Option<V>)
        requires
            old(self).well_formed(),
        ensures
            final(self).well_formed(),
            final(self)@ == old(self)@.remove(*key),
            r == (if old(self)@.dom().contains(*key) {
                Some(old(self)@[*key])
            } else {
                None::<V>
            }),
            final(self)@.dom().len() == old(self)@.dom().len() - (if old(self)@.dom().contains(
                *key,
            ) {
                1int
            } else {
                0int
            }),
            final(self)@.dom().finite(),
            old(self)@.dom().finite(),
            final(self).spec_levels() == old(self).spec_levels() || final(self).spec_levels() + 1
                == old(self).spec_levels(),
    {
        match self.remove_entry(key) {
            None => None,
            Some((_, v)) => Some(v),
        }
    }

    /// Removes a key from the map.
    /// Returns the stored key and value if the key was previously in the map.
    pub fn remove_entry(&mut self, key: &i64) -> (r: Option<(i64, V)>)
        requires
            old(self).well_formed(),
        ensures
            final(self).well_formed(),
            final(self)@ == old(self)@.remove(*key),
            r == (if old(self)@.dom().contains(*key) {
                Some((*key, old(self)@[*key]))
            } else {
                None::<(i64, V)>
            }),
            final(self)@.dom().len() == old(self)@.dom().len() - (if old(self)@.dom().contains(
                *key,
            ) {
                1int
            } else {
                0int
            }),
            final(self)@.dom().finite(),
            old(self)@.dom().finite(),
            final(self).spec_levels() == old(self).spec_levels() || final(self).spec_levels() + 1
                == old(self).spec_levels(),
    {
        proof {
            lemma_count_is_dom_len(self.root);
        }
        let removed = Node::<V>::remove_from_optional(&mut self.root, *key);
        if removed.is_some() {
            self.num_nodes = self.num_nodes - 1;
        }
        proof {
            lemma_count_is_dom_len(self.root);
        }
        removed
    }

    /// Moves all elements from other into self, leaving other empty. A key
    /// present in both maps keeps the value moved over from `other`.
    #[verifier::rlimit(80)]
    pub fn append(&mut self, other: &mut Self)
        requires
            old(self).well_formed(),
            old(other).well_formed(),
            old(self)@.dom().len() + old(other)@.dom().len() <= usize::MAX,
        ensures
            final(self).well_formed(),
            final(other).well_formed(),
            final(self)@ == old(self)@.union_prefer_right(old(other)@),
            final(other)@ == Map::<i64, V>::empty(),
    {
        proof {
            lemma_count_is_dom_len(self.root);
            lemma_count_is_dom_len(other.root);
            lemma_kv_seq_props(other.root);
        }
        let root = other.root.take();
        other.num_nodes = 0;
        proof {
            assert(Node::<V>::optional_as_map(None::<Box<Node<V>>>) =~= Map::<i64, V>::empty());
        }
        let ghost s = Node::<V>::optional_kv_seq(root);
        let ghost om = Node::<V>::optional_as_map(root);
        let ghost m0 = self@;
        let mut buf: Vec<(i64, V)> = Vec::new();
        Node::<V>::into_entries(root, &mut buf);
        proof {
            assert(buf@ =~= s);
            assert(buf@ =~= s.subrange(0, s.len() as int));
            assert(self@ =~= m0.union_prefer_right(node::prefix_map(s, 0)));
        }
        let ghost mut j: int = 0;
        while buf.len() > 0
            invariant
                self.well_formed(),
                0 <= j <= s.len(),
                buf@ == s.subrange(j, s.len() as int),
                self@ == m0.union_prefer_right(node::prefix_map(s, j)),
                self@.dom().len() <= m0.dom().len() + j,
                m0.dom().len() + s.len() <= usize::MAX,
            decreases buf@.len(),
        {
            let p = buf.remove(0);
            proof {
                assert(p == s[j]);
            }
            self.insert(p.0, p.1);
            proof {
                j = j + 1;
                assert(node::prefix_map(s, j) == node::prefix_map(s, j - 1).insert(
                    s[j - 1].0,
                    s[j - 1].1,
                ));
                assert(self@ =~= m0.union_prefer_right(node::prefix_map(s, j)));
                assert(buf@ =~= s.subrange(j, s.len() as int));
            }
        }
        proof {
            assert(j == s.len());
            node::lemma_prefix_map_props(s, s.len() as int);
            let pm = node::prefix_map(s, s.len() as int);
            assert forall|k: i64| om.dom().contains(k) implies pm.dom().contains(k) && pm[k]
                == om[k] by {
                let i = choose|i: int| 0 <= i < s.len() && (#[trigger] s[i]).0 == k;
                assert(pm[s[i].0] == s[i].1);
                assert(om[s[i].0] == s[i].1);
            };
            assert forall|k: i64| pm.dom().contains(k) implies om.dom().contains(k) by {
                let i = choose|i: int| 0 <= i < s.len() && (#[trigger] s[i]).0 == k;
                assert(om.dom().contains(s[i].0));
            };
            assert(pm =~= om);
            assert(self@ =~= m0.union_prefer_right(om));
        }
    }

    /// The keys in pre-order: each node before its subtrees, left before
    /// right.
    pub closed spec fn spec_pre_seq(self) -> Seq<i64> {
        Node::<V>::optional_pre_seq(self.root)
    }

    /// The keys in post-order: each node after its subtrees, left before
    /// right.
    pub closed spec fn spec_post_seq(self) -> Seq<i64> {
        Node::<V>::optional_post_seq(self.root)
    }

    /// Gets the keys of the map in pre-order: each node before its
    /// subtrees, the left one before the right one.
    pub fn preorder(&self) -> (ks: Vec<i64>)
        requires
            self.well_formed(),
        ensures
            ks@ == self.spec_pre_seq(),
            ks@.len() == self@.dom().len(),
            forall|i: int| 0 <= i < ks@.len() ==> self@.dom().contains(#[trigger] ks@[i]),
            forall|k: i64|
                self@.dom().contains(k) ==> exists|i: int|
                    0 <= i < ks@.len() && #[trigger] ks@[i] == k,
            forall|i: int, j: int| 0 <= i < j < ks@.len() ==> ks@[i] != ks@[j],
    {
        proof {
            node::lemma_pre_seq_props(self.root);
            lemma_count_is_dom_len(self.root);
        }
        let mut out: Vec<i64> = Vec::new();
        Node::<V>::collect_pre(&self.root, &mut out);
        proof {
            assert(out@ =~= self.spec_pre_seq());
            assert forall|k: i64| self@.dom().contains(k) implies exists|i: int|
                0 <= i < out@.len() && #[trigger] out@[i] == k by {
                let p = Node::<V>::optional_pre_seq(self.root);
                let i = choose|i: int| 0 <= i < p.len() && #[trigger] p[i] == k;
                assert(out@[i] == k);
            };
        }
        out
    }

    /// Gets the keys of the map in order: ascending by key.
    pub fn inorder(&self) -> (ks: Vec<i64>)
        requires
            self.well_formed(),
        ensures
            ks@ == self.spec_key_seq(),
            strictly_sorted(ks@),
            ks@.len() == self@.dom().len(),
    {
        self.key_vec()
    }

    /// Gets the keys of the map in post-order: each node after its
    /// subtrees, the left one before the right one.
    pub fn postorder(&self) -> (ks: Vec<i64>)
        requires
            self.well_formed(),
        ensures
            ks@ == self.spec_post_seq(),
            ks@.len() == self@.dom().len(),
            forall|i: int| 0 <= i < ks@.len() ==> self@.dom().contains(#[trigger] ks@[i]),
            forall|k: i64|
                self@.dom().contains(k) ==> exists|i: int|
                    0 <= i < ks@.len() && #[trigger] ks@[i] == k,
            forall|i: int, j: int| 0 <= i < j < ks@.len() ==> ks@[i] != ks@[j],
    {
        proof {
            node::lemma_post_seq_props(self.root);
            lemma_count_is_dom_len(self.root);
        }
        let mut out: Vec<i64> = Vec::new();
        Node::<V>::collect_post(&self.root, &mut out);
        proof {
            assert(out@ =~= self.spec_post_seq());
            assert forall|k: i64| self@.dom().contains(k) implies exists|i: int|
                0 <= i < out@.len() && #[trigger] out@[i] == k by {
                let p = Node::<V>::optional_post_seq(self.root);
                let i = choose|i: int| 0 <= i < p.len() && #[trigger] p[i] == k;
                assert(out@[i] == k);
            };
        }
        out
    }

    /// Walks the whole tree and re-derives the consistency checks: the
    /// ordering, the stored heights, the balance condition and the node
    /// count. Every check is discharged by the verifier, so the walk cannot
    /// fail; it is kept as an entry point for test harnesses.
    pub fn check_consistency(&self)
        requires
            self.well_formed(),
    {
        proof {
            lemma_count_is_dom_len(self.root);
        }
        let c = Node::<V>::check_node(&self.root);
        assert(c == self.num_nodes);
    }

    /// Gets the map entry of given key for in-place manipulation.
    pub fn entry(&self, key: i64) -> (e: Entry)
        requires
            self.well_formed(),
        ensures
            e.spec_key() == key,
            e is Occupied <==> self@.dom().contains(key),
    {
        if self.contains_key(&key) {
            Entry::Occupied(OccupiedEntry { key })
        } else {
            Entry::Vacant(VacantEntry { key })
        }
    }

    /// Gets the keys of the map in ascending order.
    pub fn key_vec(&self) -> (ks: Vec<i64>)
        requires
            self.well_formed(),
        ensures
            ks@ == self.spec_key_seq(),
            strictly_sorted(ks@),
            ks@.len() == self@.dom().len(),
            forall|i: int| 0 <= i < ks@.len() ==> self@.dom().contains(#[trigger] ks@[i]),
            forall|k: i64|
                self@.dom().contains(k) ==> exists|i: int|
                    0 <= i < ks@.len() && #[trigger] ks@[i] == k,
    {
        let mut out: Vec<i64> = Vec::new();
        Node::<V>::collect_keys(&self.root, &mut out);
        proof {
            lemma_kv_seq_props(self.root);
            lemma_key_seq_is_kv_keys(self.root);
            lemma_count_is_dom_len(self.root);
            assert(out@ =~= self.spec_key_seq());
            assert forall|k: i64| self@.dom().contains(k) implies exists|i: int|
                0 <= i < out@.len() && #[trigger] out@[i] == k by {
                let s = Node::<V>::optional_kv_seq(self.root);
                let i = choose|i: int| 0 <= i < s.len() && (#[trigger] s[i]).0 == k;
                assert(out@[i] == k);
            };
        }
        out
    }
}

/// A view into a vacant map entry. It is part of the Entry enum.
pub struct VacantEntry {
    key: i64,
}

/// A view into an occupied map entry. It is part of the Entry enum.
pub struct OccupiedEntry {
    key: i64,
}

/// A view into a single map entry, which may either be vacant or occupied.
/// The entry records the key and whether it was present at the time of the
/// lookup; the operations below take the map itself again, since an entry
/// does not borrow it.
pub enum Entry {
    Vacant(VacantEntry),
    Occupied(OccupiedEntry),
}

impl VacantEntry {
    /// The key this entry speaks of.
    pub closed spec fn spec_key(self) -> i64 {
        self.key
    }

    /// Returns the key of the entry.
    pub fn key(&self) -> (k: i64)
        ensures
            k == self.spec_key(),
    {
        self.key
    }

    /// Takes ownership of the key of the entry.
    pub fn into_key(self) -> (k: i64)
        ensures
            k == self.spec_key(),
    {
        self.key
    }

    /// Inserts the value into the map for the entry's key, which must still
    /// be absent.
    pub fn insert<V>(self, map: &mut AvlTreeMap<V>, value: V)
        requires
            old(map).well_formed(),
            old(map)@.dom().len() < usize::MAX,
            !old(map)@.dom().contains(self.spec_key()),
        ensures
            final(map).well_formed(),
            final(map)@ == old(map)@.insert(self.spec_key(), value),
    {
        let _ = map.insert(self.key, value);
    }
}

impl OccupiedEntry {
    /// The key this entry speaks of.
    pub closed spec fn spec_key(self) -> i64 {
        self.key
    }

    /// Returns the key of the entry.
    pub fn key(&self) -> (k: i64)
        ensures
            k == self.spec_key(),
    {
        self.key
    }

    /// Gets a reference to the value stored under the entry's key, which
    /// must still be present in the map.
    pub fn get<'a, V>(&self, map: &'a AvlTreeMap<V>) -> (v: &'a V)
        requires
            map.well_formed(),
            map@.dom().contains(self.spec_key()),
        ensures
            v == &map@[self.spec_key()],
    {
        map.index(&self.key())
    }

    /// Removes the entry's key from the map and returns its value. The key
    /// must still be present.
    pub fn remove<V>(self, map: &mut AvlTreeMap<V>) -> (v: V)
        requires
            old(map).well_formed(),
            old(map)@.dom().contains(self.spec_key()),
        ensures
            final(map).well_formed(),
            final(map)@ == old(map)@.remove(self.spec_key()),
            v == old(map)@[self.spec_key()],
    {
        match map.remove(&self.key) {
            Some(v) => v,
            None => unreached(),
        }
    }
}

impl Entry {
    /// The key this entry speaks of.
    pub open spec fn spec_key(self) -> i64 {
        match self {
            Entry::Vacant(v) => v.spec_key(),
            Entry::Occupied(o) => o.spec_key(),
        }
    }

    /// Returns the key of the entry.
    pub fn key(&self) -> (k: i64)
        ensures
            k == self.spec_key(),
    {
        match self {
            Entry::Vacant(v) => v.key(),
            Entry::Occupied(o) => o.key(),
        }
    }

    /// Inserts the value into the map if the entry is vacant; an occupied
    /// entry leaves the map unchanged.
    pub fn or_insert<V>(self, map: &mut AvlTreeMap<V>, value: V)
        requires
            old(map).well_formed(),
            old(map)@.dom().len() < usize::MAX,
        ensures
            final(map).well_formed(),
            final(map)@ == (if old(map)@.dom().contains(self.spec_key()) {
                old(map)@
            } else {
                old(map)@.insert(self.spec_key(), value)
            }),
    {
        if !map.contains_key(&self.key()) {
            let _ = map.insert(self.key(), value);
        }
    }

    /// Calls the provided closure and inserts the resulting value into the
    /// map if the entry is vacant; an occupied entry leaves the map
    /// unchanged and the closure uncalled.
    pub fn or_insert_with<V, F: FnOnce() -> V>(self, map: &mut AvlTreeMap<V>, create_value: F)
        requires
            old(map).well_formed(),
            old(map)@.dom().len() < usize::MAX,
            call_requires(create_value, ()),
        ensures
            final(map).well_formed(),
            old(map)@.dom().contains(self.spec_key()) ==> final(map)@ == old(map)@,
            !old(map)@.dom().contains(self.spec_key()) ==> exists|v: V|
                call_ensures(create_value, (), v) && final(map)@ == old(map)@.insert(
                    self.spec_key(),
                    v,
                ),
    {
        if !map.contains_key(&self.key()) {
            let v = create_value();
            let _ = map.insert(self.key(), v);
        }
    }

    /// Inserts the value type's default into the map if the entry is
    /// vacant; an occupied entry leaves the map unchanged.
    pub fn or_default<V: Default>(self, map: &mut AvlTreeMap<V>)
        requires
            old(map).well_formed(),
            old(map)@.dom().len() < usize::MAX,
        ensures
            final(map).well_formed(),
            old(map)@.dom().contains(self.spec_key()) ==> final(map)@ == old(map)@,
            !old(map)@.dom().contains(self.spec_key()) ==> exists|v: V|
                final(map)@ == old(map)@.insert(self.spec_key(), v),
    {
        if !map.contains_key(&self.key()) {
            let v = V::default();
            let _ = map.insert(self.key(), v);
        }
    }
}

/// An iterator over the entries of a map: the remaining entries are handed
/// out from either end in ascending key order. The keys are the map's keys
/// exactly; the values are clones of the stored ones.
pub struct Iter<V> {
    entries: Vec<(i64, V)>,
}

/// An iterator over a range of entries of a map.
pub struct Range<V> {
    entries: Vec<(i64, V)>,
}

/// An iterator over the keys of a map, in ascending order.
pub struct Keys {
    keys: Vec<i64>,
}

/// An iterator over the values of a map, in order by key.
pub struct Values<V> {
    values: Vec<V>,
}

/// An owning iterator over the entries of a map, in ascending key order.
/// It holds the entries themselves, moved out of the tree.
pub struct IntoIter<V> {
    entries: Vec<(i64, V)>,
}

impl<V> Iter<V> {
    /// The entries not yet handed out, in ascending key order.
    pub closed spec fn remaining(self) -> Seq<(i64, V)> {
        self.entries@
    }

    /// Hands out the smallest remaining entry.
    pub fn next(&mut self) -> (r: Option<(i64, V)>)
        ensures
            old(self).remaining().len() == 0 ==> r is None && final(self).remaining() == old(self).remaining(),
            old(self).remaining().len() > 0 ==> r == Some(old(self).remaining()[0]) && final(self).remaining() == old(self).remaining().drop_first(),
    {
        if self.entries.len() > 0 {
            let p = self.entries.remove(0);
            proof {
                assert(self.entries@ =~= old(self).remaining().drop_first());
            }
            Some(p)
        } else {
            None
        }
    }

    /// Hands out the largest remaining entry.
    pub fn next_back(&mut self) -> (r: Option<(i64, V)>)
        ensures
            old(self).remaining().len() == 0 ==> r is None && final(self).remaining() == old(self).remaining(),
            old(self).remaining().len() > 0 ==> r == Some(old(self).remaining().last()) && final(self).remaining() == old(self).remaining().drop_last(),
    {
        self.entries.pop()
    }

    /// Peeks at the smallest remaining entry without advancing.
    pub fn peek(&self) -> (r: Option<&(i64, V)>)
        ensures
            r is Some <==> self.remaining().len() > 0,
            r is Some ==> *r.unwrap() == self.remaining()[0],
    {
        if self.entries.len() > 0 {
            Some(&self.entries[0])
        } else {
            None
        }
    }
}

impl<V> Range<V> {
    /// The entries not yet handed out, in ascending key order.
    pub closed spec fn remaining(self) -> Seq<(i64, V)> {
        self.entries@
    }

    /// Hands out the smallest remaining entry.
    pub fn next(&mut self) -> (r: Option<(i64, V)>)
        ensures
            old(self).remaining().len() == 0 ==> r is None && final(self).remaining() == old(self).remaining(),
            old(self).remaining().len() > 0 ==> r == Some(old(self).remaining()[0]) && final(self).remaining() == old(self).remaining().drop_first(),
    {
        if self.entries.len() > 0 {
            let p = self.entries.remove(0);
            proof {
                assert(self.entries@ =~= old(self).remaining().drop_first());
            }
            Some(p)
        } else {
            None
        }
    }

    /// Hands out the largest remaining entry.
    pub fn next_back(&mut self) -> (r: Option<(i64, V)>)
        ensures
            old(self).remaining().len() == 0 ==> r is None && final(self).remaining() == old(self).remaining(),
            old(self).remaining().len() > 0 ==> r == Some(old(self).remaining().last()) && final(self).remaining() == old(self).remaining().drop_last(),
    {
        self.entries.pop()
    }

    /// Peeks at the smallest remaining entry without advancing.
    pub fn peek(&self) -> (r: Option<&(i64, V)>)
        ensures
            r is Some <==> self.remaining().len() > 0,
            r is Some ==> *r.unwrap() == self.remaining()[0],
    {
        if self.entries.len() > 0 {
            Some(&self.entries[0])
        } else {
            None
        }
    }
}

impl Keys {
    /// The keys not yet handed out, in ascending order.
    pub closed spec fn remaining(self) -> Seq<i64> {
        self.keys@
    }

    /// Hands out the smallest remaining key.
    pub fn next(&mut self) -> (r: Option<i64>)
        ensures
            old(self).remaining().len() == 0 ==> r is None && final(self).remaining() == old(self).remaining(),
            old(self).remaining().len() > 0 ==> r == Some(old(self).remaining()[0]) && final(self).remaining() == old(self).remaining().drop_first(),
    {
        if self.keys.len() > 0 {
            let k = self.keys.remove(0);
            proof {
                assert(self.keys@ =~= old(self).remaining().drop_first());
            }
            Some(k)
        } else {
            None
        }
    }

    /// Hands out the largest remaining key.
    pub fn next_back(&mut self) -> (r: Option<i64>)
        ensures
            old(self).remaining().len() == 0 ==> r is None && final(self).remaining() == old(self).remaining(),
            old(self).remaining().len() > 0 ==> r == Some(old(self).remaining().last()) && final(self).remaining() == old(self).remaining().drop_last(),
    {
        self.keys.pop()
    }
}

impl<V> Values<V> {
    /// The values not yet handed out, in order of their keys.
    pub closed spec fn remaining(self) -> Seq<V> {
        self.values@
    }

    /// Hands out the value with the smallest remaining key.
    pub fn next(&mut self) -> (r: Option<V>)
        ensures
            old(self).remaining().len() == 0 ==> r is None && final(self).remaining() == old(self).remaining(),
            old(self).remaining().len() > 0 ==> r == Some(old(self).remaining()[0]) && final(self).remaining() == old(self).remaining().drop_first(),
    {
        if self.values.len() > 0 {
            let v = self.values.remove(0);
            proof {
                assert(self.values@ =~= old(self).remaining().drop_first());
            }
            Some(v)
        } else {
            None
        }
    }

    /// Hands out the value with the largest remaining key.
    pub fn next_back(&mut self) -> (r: Option<V>)
        ensures
            old(self).remaining().len() == 0 ==> r is None && final(self).remaining() == old(self).remaining(),
            old(self).remaining().len() > 0 ==> r == Some(old(self).remaining().last()) && final(self).remaining() == old(self).remaining().drop_last(),
    {
        self.values.pop()
    }
}

impl<V> IntoIter<V> {
    /// The entries not yet handed out, in ascending key order.
    pub closed spec fn remaining(self) -> Seq<(i64, V)> {
        self.entries@
    }

    /// Hands out the smallest remaining entry.
    pub fn next(&mut self) -> (r: Option<(i64, V)>)
        ensures
            old(self).remaining().len() == 0 ==> r is None && final(self).remaining() == old(self).remaining(),
            old(self).remaining().len() > 0 ==> r == Some(old(self).remaining()[0]) && final(self).remaining() == old(self).remaining().drop_first(),
    {
        if self.entries.len() > 0 {
            let p = self.entries.remove(0);
            proof {
                assert(self.entries@ =~= old(self).remaining().drop_first());
            }
            Some(p)
        } else {
            None
        }
    }

    /// Hands out the largest remaining entry.
    pub fn next_back(&mut self) -> (r: Option<(i64, V)>)
        ensures
            old(self).remaining().len() == 0 ==> r is None && final(self).remaining() == old(self).remaining(),
            old(self).remaining().len() > 0 ==> r == Some(old(self).remaining().last()) && final(self).remaining() == old(self).remaining().drop_last(),
    {
        self.entries.pop()
    }
}

impl<V> AvlTreeMap<V> {
    /// Gets an iterator over the keys of the map, in sorted order.
    pub fn keys(&self) -> (it: Keys)
        requires
            self.well_formed(),
        ensures
            it.remaining() == self.spec_key_seq(),
            strictly_sorted(it.remaining()),
            it.remaining().len() == self@.dom().len(),
            forall|i: int|
                0 <= i < it.remaining().len() ==> self@.dom().contains(
                    #[trigger] it.remaining()[i],
                ),
            forall|k: i64|
                self@.dom().contains(k) ==> exists|i: int|
                    0 <= i < it.remaining().len() && #[trigger] it.remaining()[i] == k,
    {
        Keys { keys: self.key_vec() }
    }

    /// Turns the map into an owning iterator over its entries, destroying
    /// the tree as elements are handed out.
    pub fn into_iter(self) -> (it: IntoIter<V>)
        requires
            self.well_formed(),
        ensures
            it.remaining() == self.spec_kv_seq(),
            it.remaining().len() == self@.dom().len(),
            forall|i: int|
                0 <= i < it.remaining().len() ==> {
                    let p = #[trigger] it.remaining()[i];
                    self@.dom().contains(p.0) && self@[p.0] == p.1
                },
            forall|i: int, j: int|
                0 <= i < j < it.remaining().len() ==> (#[trigger] it.remaining()[i]).0 < (
                #[trigger] it.remaining()[j]).0,
            forall|k: i64|
                self@.dom().contains(k) ==> exists|i: int|
                    0 <= i < it.remaining().len() && (#[trigger] it.remaining()[i]).0 == k,
    {
        proof {
            lemma_kv_seq_props(self.root);
            lemma_count_is_dom_len(self.root);
        }
        let AvlTreeMap { root, num_nodes: _ } = self;
        let mut out: Vec<(i64, V)> = Vec::new();
        Node::<V>::into_entries(root, &mut out);
        proof {
            assert(out@ =~= Node::<V>::optional_kv_seq(root));
        }
        IntoIter { entries: out }
    }
}

impl<V: Clone> AvlTreeMap<V> {
    /// Makes a structure-preserving copy of the tree: the copy is well
    /// formed, holds the same keys in the same shape, and its values are
    /// clones of the stored ones.
    pub fn clone_tree(&self) -> (r: Self)
        requires
            self.well_formed(),
        ensures
            r.well_formed(),
            r@.dom() == self@.dom(),
            r.spec_key_seq() == self.spec_key_seq(),
            r.spec_levels() == self.spec_levels(),
            r.spec_kv_seq().len() == self.spec_kv_seq().len(),
            forall|i: int|
                0 <= i < self.spec_kv_seq().len() ==> (#[trigger] r.spec_kv_seq()[i]).0
                    == self.spec_kv_seq()[i].0 && cloned::<V>(
                    self.spec_kv_seq()[i].1,
                    r.spec_kv_seq()[i].1,
                ),
            forall|k: i64| self@.dom().contains(k) ==> cloned::<V>(self@[k], #[trigger] r@[k]),
    {
        let root = Node::<V>::clone_node(&self.root);
        let r = AvlTreeMap { root, num_nodes: self.num_nodes };
        proof {
            lemma_kv_seq_props(self.root);
            lemma_kv_seq_props(r.root);
            assert forall|k: i64| self@.dom().contains(k) implies cloned::<V>(
                self@[k],
                #[trigger] r@[k],
            ) by {
                let sn = Node::<V>::optional_kv_seq(self.root);
                let sr = Node::<V>::optional_kv_seq(r.root);
                assert(exists|i: int| 0 <= i < sn.len() && (#[trigger] sn[i]).0 == k);
                let i = choose|i: int| 0 <= i < sn.len() && (#[trigger] sn[i]).0 == k;
                assert(self@[sn[i].0] == sn[i].1);
                assert(sr[i].0 == k && cloned::<V>(sn[i].1, sr[i].1));
                assert(r@.dom().contains(sr[i].0) && r@[sr[i].0] == sr[i].1);
            };
        }
        r
    }

    /// Gets an iterator over the entries of the map, sorted by key. The
    /// values handed out are clones of the stored ones.
    pub fn iter(&self) -> (it: Iter<V>)
        requires
            self.well_formed(),
        ensures
            it.remaining().len() == self@.dom().len(),
            forall|i: int|
                0 <= i < it.remaining().len() ==> (#[trigger] it.remaining()[i]).0
                    == self.spec_key_seq()[i],
            forall|i: int|
                0 <= i < it.remaining().len() ==> self@.dom().contains(
                    (#[trigger] it.remaining()[i]).0,
                ),
            forall|i: int, j: int|
                0 <= i < j < it.remaining().len() ==> (#[trigger] it.remaining()[i]).0 < (
                #[trigger] it.remaining()[j]).0,
            forall|k: i64|
                self@.dom().contains(k) ==> exists|i: int|
                    0 <= i < it.remaining().len() && (#[trigger] it.remaining()[i]).0 == k,
            forall|i: int|
                0 <= i < it.remaining().len() ==> cloned::<V>(
                    self.spec_kv_seq()[i].1,
                    (#[trigger] it.remaining()[i]).1,
                ),
    {
        let mut out: Vec<(i64, V)> = Vec::new();
        Node::<V>::collect_entries(&self.root, &mut out);
        proof {
            lemma_kv_seq_props(self.root);
            lemma_key_seq_is_kv_keys(self.root);
            lemma_count_is_dom_len(self.root);
            assert forall|k: i64| self@.dom().contains(k) implies exists|i: int|
                0 <= i < out@.len() && (#[trigger] out@[i]).0 == k by {
                let s = Node::<V>::optional_kv_seq(self.root);
                assert(exists|i: int| 0 <= i < s.len() && (#[trigger] s[i]).0 == k);
                let i = choose|i: int| 0 <= i < s.len() && (#[trigger] s[i]).0 == k;
                assert((#[trigger] out@[i]).0 == s[i].0);
                assert(out@[i].0 == k);
            };
        }
        Iter { entries: out }
    }

    /// Gets an iterator over the values of the map, in order by key. The
    /// values handed out are clones of the stored ones.
    pub fn values(&self) -> (it: Values<V>)
        requires
            self.well_formed(),
        ensures
            it.remaining().len() == self@.dom().len(),
            forall|i: int|
                0 <= i < it.remaining().len() ==> cloned::<V>(
                    self.spec_kv_seq()[i].1,
                    #[trigger] it.remaining()[i],
                ),
    {
        proof {
            lemma_kv_seq_props(self.root);
            lemma_count_is_dom_len(self.root);
        }
        let mut out: Vec<V> = Vec::new();
        Node::<V>::collect_values(&self.root, &mut out);
        Values { values: out }
    }

    /// Gets the keys of the map that fall within the given bounds, in
    /// ascending order. The range must be valid: its start must not sort
    /// after its end, and a range whose bounds both exclude one and the same
    /// key is refused.
    pub fn range_keys(&self, start: Bound, end: Bound) -> (ks: Vec<i64>)
        requires
            self.well_formed(),
            valid_range(start, end),
        ensures
            ks@ == self.spec_key_seq().filter((|k: i64| in_bounds(k, start, end))),
    {
        let mut ks: Vec<i64> = Vec::new();
        Node::<V>::collect_range_keys(&self.root, start, end, &mut ks);
        proof {
            assert(ks@ =~= self.spec_key_seq().filter((|k: i64| in_bounds(k, start, end))));
        }
        ks
    }

    /// Gets an iterator over a range of entries of the map, in order by key.
    /// The range must be valid: its start must not sort after its end, and a
    /// range whose bounds both exclude one and the same key is refused.
    pub fn range(&self, start: Bound, end: Bound) -> (it: Range<V>)
        requires
            self.well_formed(),
            valid_range(start, end),
        ensures
            ({
                let f = self.spec_key_seq().filter((|k: i64| in_bounds(k, start, end)));
                &&& it.remaining().len() == f.len()
                &&& (forall|i: int|
                    0 <= i < it.remaining().len() ==> (#[trigger] it.remaining()[i]).0 == f[i]
                        && self@.dom().contains(f[i]) && cloned::<V>(
                        self@[f[i]],
                        it.remaining()[i].1,
                    ))
            }),
    {
        Range { entries: Node::<V>::range_vec(&self.root, start, end) }
    }
}

impl<V> View for AvlTreeMap<V> {
    type V = Map<i64, V>;

    open spec fn view(&self) -> Map<i64, V> {
        self.as_map()
    }
}

/// The view of a well-formed map has finitely many keys.
pub proof fn lemma_map_view_finite<V>(m: AvlTreeMap<V>)
    requires
        m.well_formed(),
    ensures
        m@.dom().finite(),
{
    lemma_count_is_dom_len(m.root);
}

/// The map after inserting the first `j` pairs of a sequence, in order.
pub open spec fn insert_pairs<V>(m: Map<i64, V>, s: Seq<(i64, V)>, j: int) -> Map<i64, V>
    decreases j,
{
    if j <= 0 {
        m
    } else {
        insert_pairs(m, s, j - 1).insert(s[j - 1].0, s[j - 1].1)
    }
}

/// The map after removing the first `j` keys of a sequence, in order.
pub open spec fn remove_keys<V>(m: Map<i64, V>, ks: Seq<i64>, j: int) -> Map<i64, V>
    decreases j,
{
    if j <= 0 {
        m
    } else {
        remove_keys(m, ks, j - 1).remove(ks[j - 1])
    }
}

/// The keys that inserting a prefix of pairs can add.
proof fn lemma_insert_pairs_dom<V>(m: Map<i64, V>, s: Seq<(i64, V)>, j: int)
    requires
        0 <= j <= s.len(),
    ensures
        forall|k: i64|
            insert_pairs(m, s, j).dom().contains(k) ==> m.dom().contains(k) || exists|i: int|
                0 <= i < j && (#[trigger] s[i]).0 == k,
    decreases j,
{
    if j > 0 {
        lemma_insert_pairs_dom(m, s, j - 1);
        assert forall|k: i64| insert_pairs(m, s, j).dom().contains(k) implies m.dom().contains(k)
            || exists|i: int| 0 <= i < j && (#[trigger] s[i]).0 == k by {
            if k == s[j - 1].0 {
                assert(s[j - 1].0 == k);
            } else {
                assert(insert_pairs(m, s, j - 1).dom().contains(k));
                if !m.dom().contains(k) {
                    let i = choose|i: int| 0 <= i < j - 1 && (#[trigger] s[i]).0 == k;
                    assert(0 <= i < j && s[i].0 == k);
                }
            }
        };
    }
}

/// Removing a sequence of keys takes away exactly those keys.
proof fn lemma_remove_keys_dom<V>(m: Map<i64, V>, ks: Seq<i64>, j: int)
    requires
        0 <= j <= ks.len(),
    ensures
        forall|k: i64|
            remove_keys(m, ks, j).dom().contains(k) <==> m.dom().contains(k) && !(exists|i: int|
                0 <= i < j && #[trigger] ks[i] == k),
    decreases j,
{
    if j > 0 {
        lemma_remove_keys_dom(m, ks, j - 1);
        assert forall|k: i64|
            remove_keys(m, ks, j).dom().contains(k) <==> m.dom().contains(k) && !(exists|i: int|
                0 <= i < j && #[trigger] ks[i] == k) by {
            if k == ks[j - 1] {
                assert(ks[j - 1] == k);
            } else {
                if exists|i: int| 0 <= i < j && #[trigger] ks[i] == k {
                    let i = choose|i: int| 0 <= i < j && #[trigger] ks[i] == k;
                    assert(0 <= i < j - 1 && ks[i] == k);
                }
            }
        };
    }
}

/// Round-trip law: inserting any sequence of pairs into an empty map and
/// then removing every inserted key leaves the empty map. Together with the
/// contracts of `insert` and `remove`, whose effect on the view is exactly
/// `Map::insert` and `Map::remove`, this says that building a map and then
/// taking every key out again ends where it started.
pub proof fn lemma_insert_remove_round_trip<V>(s: Seq<(i64, V)>, ks: Seq<i64>)
    requires
        ks.len() == s.len(),
        forall|i: int| 0 <= i < s.len() ==> #[trigger] ks[i] == s[i].0,
    ensures
        remove_keys(insert_pairs(Map::<i64, V>::empty(), s, s.len() as int), ks, ks.len() as int)
            == Map::<i64, V>::empty(),
{
    let m1 = insert_pairs(Map::<i64, V>::empty(), s, s.len() as int);
    let m2 = remove_keys(m1, ks, ks.len() as int);
    lemma_insert_pairs_dom(Map::<i64, V>::empty(), s, s.len() as int);
    lemma_remove_keys_dom(m1, ks, ks.len() as int);
    assert forall|k: i64| !m2.dom().contains(k) by {
        if m2.dom().contains(k) {
            assert(m1.dom().contains(k));
            let jlen = s.len() as int;
            assert(insert_pairs(Map::<i64, V>::empty(), s, jlen).dom().contains(k));
            assert(!Map::<i64, V>::empty().dom().contains(k));
            assert(exists|i: int| 0 <= i < jlen && (#[trigger] s[i]).0 == k);
            let i = choose|i: int| 0 <= i < jlen && (#[trigger] s[i]).0 == k;
            assert(ks[i] == k);
        }
    };
    assert(m2 =~= Map::<i64, V>::empty());
}

/// Boundary law: a range whose start and end name the same key, including
/// it on one side and excluding it on the other, holds no keys at all.
pub proof fn lemma_range_same_key_empty(s: Seq<i64>, k: i64)
    ensures
        s.filter((|x: i64| in_bounds(x, Bound::Included(k), Bound::Excluded(k)))) == Seq::<
            i64,
        >::empty(),
        s.filter((|x: i64| in_bounds(x, Bound::Excluded(k), Bound::Included(k)))) == Seq::<
            i64,
        >::empty(),
{
    let p1 = (|x: i64| in_bounds(x, Bound::Included(k), Bound::Excluded(k)));
    let p2 = (|x: i64| in_bounds(x, Bound::Excluded(k), Bound::Included(k)));
    assert(s.all((|x: i64| !p1(x))));
    s.lemma_all_neg_filter_empty(p1);
    assert(s.filter(p1) =~= Seq::<i64>::empty());
    assert(s.all((|x: i64| !p2(x))));
    s.lemma_all_neg_filter_empty(p2);
    assert(s.filter(p2) =~= Seq::<i64>::empty());
}

/// Ordering law: the key sequence of a well-formed map is strictly
/// ascending and lists exactly the keys of the map.
pub proof fn lemma_key_seq_ascending<V>(m: AvlTreeMap<V>)
    requires
        m.well_formed(),
    ensures
        strictly_sorted(m.spec_key_seq()),
        m.spec_key_seq().len() == m@.dom().len(),
        forall|i: int|
            0 <= i < m.spec_key_seq().len() ==> m@.dom().contains(#[trigger] m.spec_key_seq()[i]),
        forall|k: i64|
            m@.dom().contains(k) ==> exists|i: int|
                0 <= i < m.spec_key_seq().len() && #[trigger] m.spec_key_seq()[i] == k,
        m.spec_kv_seq().len() == m.spec_key_seq().len(),
        forall|i: int|
            0 <= i < m.spec_kv_seq().len() ==> #[trigger] m.spec_kv_seq()[i] == (
            m.spec_key_seq()[i],
            m@[m.spec_key_seq()[i]],
            ),
{
    lemma_kv_seq_props(m.root);
    lemma_key_seq_is_kv_keys(m.root);
    lemma_count_is_dom_len(m.root);
    assert forall|i: int| 0 <= i < m.spec_kv_seq().len() implies #[trigger] m.spec_kv_seq()[i]
        == (m.spec_key_seq()[i], m@[m.spec_key_seq()[i]]) by {
        let p = Node::<V>::optional_kv_seq(m.root)[i];
        assert(m@.dom().contains(p.0) && m@[p.0] == p.1);
        assert(m.spec_key_seq()[i] == p.0);
    };
    assert forall|k: i64| m@.dom().contains(k) implies exists|i: int|
        0 <= i < m.spec_key_seq().len() && #[trigger] m.spec_key_seq()[i] == k by {
        let s = Node::<V>::optional_kv_seq(m.root);
        assert(exists|i: int| 0 <= i < s.len() && (#[trigger] s[i]).0 == k);
        let i = choose|i: int| 0 <= i < s.len() && (#[trigger] s[i]).0 == k;
        assert(m.spec_key_seq()[i] == k);
    };
}

/// An empty map is exactly a tree of zero levels.
pub proof fn lemma_levels_zero_iff_empty<V>(m: AvlTreeMap<V>)
    requires
        m.well_formed(),
    ensures
        m.spec_levels() == 0 <==> m@ == Map::<i64, V>::empty(),
{
    if m.spec_levels() == 0 {
        assert(m.root is None);
        assert(m@ =~= Map::<i64, V>::empty());
    }
    if m@ == Map::<i64, V>::empty() {
        if m.root is Some {
            assert(m@.dom().contains(m.root.unwrap().key));
        }
    }
}

/// Size-height bounds: a consistent tree with a given number of levels
/// holds at least the minimal and at most the complete number of entries.
/// Together these pin the exact height of small trees.
pub proof fn lemma_size_height_bounds<V>(m: AvlTreeMap<V>)
    requires
        m.well_formed(),
    ensures
        min_size(m.spec_levels()) <= m@.dom().len(),
        m@.dom().len() + 1 <= pow2(m.spec_levels()),
{
    lemma_count_is_dom_len(m.root);
    node::lemma_count_ge_min_size(m.root);
    node::lemma_count_le_pow2(m.root);
}

/// Balance bound law: a consistent tree with at least five entries has a
/// positive height that stays below half the number of entries — a
/// degenerate chain cannot satisfy the balance invariant.
pub proof fn lemma_balance_bound<V>(m: AvlTreeMap<V>)
    requires
        m.well_formed(),
        m@.dom().len() >= 5,
    ensures
        m.spec_levels() > 1,
        2 * (m.spec_levels() - 1) < m@.dom().len(),
{
    lemma_count_is_dom_len(m.root);
    node::lemma_count_ge_min_size(m.root);
    let levels = m.spec_levels();
    let n = Node::<V>::count(m.root);
    if levels == 0 {
        assert(m.root is None);
        assert(n == 0);
    }
    if levels == 1 {
        let root = m.root.unwrap();
        assert(Node::<V>::opt_height(root.left) == 0);
        assert(Node::<V>::opt_height(root.right) == 0);
        assert(root.left is None && root.right is None);
        assert(Node::<V>::count(m.root) == 1 + Node::<V>::count(root.left) + Node::<V>::count(
            root.right,
        ));
        assert(n == 1);
    }
    assert(levels >= 2);
    if levels >= 4 {
        node::lemma_min_size_lower(levels);
        assert(n >= 2 * levels - 1);
    } else {
        assert(2 * (levels - 1) <= 4);
    }
}

impl<V> Default for AvlTreeMap<V> {
    /// Creates an empty map.
    fn default() -> (map: Self)
        ensures
            map.well_formed(),
            map@ == Map::<i64, V>::empty(),
            map.spec_levels() == 0,
    {
        Self::new()
    }
}

} // verus!
