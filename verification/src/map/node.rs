//! The tree engine: node representation, search, insertion and deletion with
//! AVL rebalancing, and the rotation primitives.
//!
//! A node owns its two subtrees; the stored `height` is the number of levels
//! of the subtree rooted at the node (a leaf stores 1). The externally
//! reported tree height counts links instead of levels, so it is one less.

use vstd::prelude::*;

use crate::map::Bound;
use crate::map::in_bounds;
use crate::map::min_size;
use crate::map::pow2;

verus! {

/// A node in the binary search tree, containing its left and right subtrees,
/// its height (number of levels, a leaf stores 1) and a key and a value.
pub(crate) struct Node<V> {
    pub key: i64,
    pub value: V,
    pub height: usize,
    pub left: Option<Box<Node<V>>>,
    pub right: Option<Box<Node<V>>>,
}

impl<V> Node<V> {
    /// The key-value pairs stored in an optional subtree, as a map.
    pub(crate) open spec fn optional_as_map(node_opt: Option<Box<Node<V>>>) -> Map<i64, V>
        decreases node_opt,
    {
        match node_opt {
            None => Map::empty(),
            Some(node) => node.as_map(),
        }
    }

    /// The key-value pairs stored in the subtree rooted at this node.
    pub(crate) open spec fn as_map(self) -> Map<i64, V>
        decreases self,
    {
        Node::<V>::optional_as_map(self.left)
            .union_prefer_right(Node::<V>::optional_as_map(self.right))
            .insert(self.key, self.value)
    }

    /// Number of nodes in an optional subtree.
    pub(crate) open spec fn count(node_opt: Option<Box<Node<V>>>) -> nat
        decreases node_opt,
    {
        match node_opt {
            None => 0,
            Some(node) => 1 + Node::<V>::count(node.left) + Node::<V>::count(node.right),
        }
    }

    /// Number of levels of an optional subtree: 0 for an absent subtree,
    /// 1 + the taller child subtree otherwise.
    pub(crate) open spec fn opt_height(node_opt: Option<Box<Node<V>>>) -> nat
        decreases node_opt,
    {
        match node_opt {
            None => 0,
            Some(node) => {
                let lh = Node::<V>::opt_height(node.left);
                let rh = Node::<V>::opt_height(node.right);
                1 + (if lh >= rh { lh } else { rh })
            }
        }
    }

    /// Binary search tree ordering: all keys in the left subtree are strictly
    /// smaller than this node's key, all keys in the right subtree strictly
    /// greater, recursively.
    pub(crate) open spec fn bst_wf(self) -> bool
        decreases self,
    {
        &&& (forall|elem|
            Node::<V>::optional_as_map(self.left).dom().contains(elem) ==> elem < self.key)
        &&& (forall|elem|
            Node::<V>::optional_as_map(self.right).dom().contains(elem) ==> elem > self.key)
        &&& (match self.left {
            Some(left_node) => left_node.bst_wf(),
            None => true,
        })
        &&& (match self.right {
            Some(right_node) => right_node.bst_wf(),
            None => true,
        })
    }

    /// Every stored height equals the recomputed height of its subtree.
    pub(crate) open spec fn heights_wf(self) -> bool
        decreases self,
    {
        &&& {
            let lh = Node::<V>::opt_height(self.left);
            let rh = Node::<V>::opt_height(self.right);
            self.height == 1 + (if lh >= rh { lh } else { rh })
        }
        &&& (match self.left {
            Some(left_node) => left_node.heights_wf(),
            None => true,
        })
        &&& (match self.right {
            Some(right_node) => right_node.heights_wf(),
            None => true,
        })
    }

    /// The AVL condition: each node's subtree heights differ by at most one.
    pub(crate) open spec fn balanced(self) -> bool
        decreases self,
    {
        &&& Node::<V>::opt_height(self.left) <= Node::<V>::opt_height(self.right) + 1
        &&& Node::<V>::opt_height(self.right) <= Node::<V>::opt_height(self.left) + 1
        &&& (match self.left {
            Some(left_node) => left_node.balanced(),
            None => true,
        })
        &&& (match self.right {
            Some(right_node) => right_node.balanced(),
            None => true,
        })
    }

    /// Full well-formedness: ordering, height bookkeeping and balance.
    pub(crate) open spec fn well_formed(self) -> bool {
        self.bst_wf() && self.heights_wf() && self.balanced()
    }

    pub(crate) open spec fn optional_well_formed(node_opt: Option<Box<Node<V>>>) -> bool {
        match node_opt {
            None => true,
            Some(node) => node.well_formed(),
        }
    }

    pub(crate) open spec fn optional_bst_wf(node_opt: Option<Box<Node<V>>>) -> bool {
        match node_opt {
            None => true,
            Some(node) => node.bst_wf(),
        }
    }

    pub(crate) open spec fn optional_heights_wf(node_opt: Option<Box<Node<V>>>) -> bool {
        match node_opt {
            None => true,
            Some(node) => node.heights_wf(),
        }
    }

    pub(crate) open spec fn optional_balanced(node_opt: Option<Box<Node<V>>>) -> bool {
        match node_opt {
            None => true,
            Some(node) => node.balanced(),
        }
    }
}

/// The larger of two heights.
pub(crate) open spec fn nat_max(a: nat, b: nat) -> nat {
    if a >= b {
        a
    } else {
        b
    }
}

/// The two ways of assembling the contents of the three subtrees touched by a
/// rotation give the same map, provided the keys are ordered as in a search
/// tree: everything in `l` below `nk`, everything in `m` between `nk` and
/// `rk`, everything in `r` above `rk`.
pub(crate) proof fn lemma_rotation_map<V>(
    l: Map<i64, V>,
    m: Map<i64, V>,
    r: Map<i64, V>,
    nk: i64,
    nv: V,
    rk: i64,
    rv: V,
)
    requires
        nk < rk,
        forall|k| l.dom().contains(k) ==> k < nk,
        forall|k| m.dom().contains(k) ==> nk < k < rk,
        forall|k| r.dom().contains(k) ==> k > rk,
    ensures
        l.union_prefer_right(m.union_prefer_right(r).insert(rk, rv)).insert(nk, nv)
            =~= l.union_prefer_right(m).insert(nk, nv).union_prefer_right(r).insert(rk, rv),
{
    let a = l.union_prefer_right(m.union_prefer_right(r).insert(rk, rv)).insert(nk, nv);
    let b = l.union_prefer_right(m).insert(nk, nv).union_prefer_right(r).insert(rk, rv);
    assert forall|k: i64| a.dom().contains(k) implies b.dom().contains(k) && a[k] == b[k] by {
        if k == nk {
        } else if k == rk {
        } else if l.dom().contains(k) && !m.dom().contains(k) && !r.dom().contains(k) {
        }
    };
    assert forall|k: i64| b.dom().contains(k) implies a.dom().contains(k) by {};
}

/// Strictly ascending key order of an entry sequence.
pub(crate) open spec fn kv_sorted<V>(s: Seq<(i64, V)>) -> bool {
    forall|i: int, j: int| 0 <= i < j < s.len() ==> (#[trigger] s[i]).0 < (#[trigger] s[j]).0
}

impl<V> Node<V> {
    /// The key-value pairs of an optional subtree in ascending key order.
    pub(crate) open spec fn optional_kv_seq(node_opt: Option<Box<Node<V>>>) -> Seq<(i64, V)>
        decreases node_opt,
    {
        match node_opt {
            None => Seq::empty(),
            Some(node) => node.kv_seq(),
        }
    }

    /// In-order walk of the subtree rooted at this node.
    pub(crate) open spec fn kv_seq(self) -> Seq<(i64, V)>
        decreases self,
    {
        Node::<V>::optional_kv_seq(self.left) + seq![(self.key, self.value)]
            + Node::<V>::optional_kv_seq(self.right)
    }
}

/// The in-order walk of an ordered subtree lists exactly the stored pairs,
/// one per node, with strictly ascending keys.
pub(crate) proof fn lemma_kv_seq_props<V>(node_opt: Option<Box<Node<V>>>)
    requires
        Node::<V>::optional_bst_wf(node_opt),
    ensures
        Node::<V>::optional_kv_seq(node_opt).len() == Node::<V>::count(node_opt),
        forall|i: int|
            0 <= i < Node::<V>::optional_kv_seq(node_opt).len() ==> {
                let p = #[trigger] Node::<V>::optional_kv_seq(node_opt)[i];
                Node::<V>::optional_as_map(node_opt).dom().contains(p.0)
                    && Node::<V>::optional_as_map(node_opt)[p.0] == p.1
            },
        forall|k: i64|
            Node::<V>::optional_as_map(node_opt).dom().contains(k) ==> exists|i: int|
                0 <= i < Node::<V>::optional_kv_seq(node_opt).len() && (#[trigger] Node::<
                    V,
                >::optional_kv_seq(node_opt)[i]).0 == k,
        kv_sorted(Node::<V>::optional_kv_seq(node_opt)),
    decreases node_opt,
{
    match node_opt {
        None => {}
        Some(node) => {
            lemma_kv_seq_props(node.left);
            lemma_kv_seq_props(node.right);
            let sl = Node::<V>::optional_kv_seq(node.left);
            let sr = Node::<V>::optional_kv_seq(node.right);
            let s = Node::<V>::optional_kv_seq(node_opt);
            let ml = Node::<V>::optional_as_map(node.left);
            let mr = Node::<V>::optional_as_map(node.right);
            let m = Node::<V>::optional_as_map(node_opt);
            assert(s == sl + seq![(node.key, node.value)] + sr);
            assert(m == ml.union_prefer_right(mr).insert(node.key, node.value));
            assert(!mr.dom().contains(node.key) && !ml.dom().contains(node.key));
            assert forall|i: int| 0 <= i < s.len() implies {
                let p = #[trigger] s[i];
                m.dom().contains(p.0) && m[p.0] == p.1
            } by {
                if i < sl.len() {
                    assert(s[i] == sl[i]);
                    assert(sl[i].0 < node.key);
                } else if i == sl.len() {
                    assert(s[i] == (node.key, node.value));
                } else {
                    assert(s[i] == sr[i - sl.len() - 1]);
                    assert(sr[i - sl.len() - 1].0 > node.key);
                }
            };
            assert forall|k: i64| m.dom().contains(k) implies exists|i: int|
                0 <= i < s.len() && (#[trigger] s[i]).0 == k by {
                if k == node.key {
                    assert(s[sl.len() as int].0 == k);
                } else if ml.dom().contains(k) {
                    let i = choose|i: int| 0 <= i < sl.len() && (#[trigger] sl[i]).0 == k;
                    assert(s[i].0 == k);
                } else {
                    assert(mr.dom().contains(k));
                    let i = choose|i: int| 0 <= i < sr.len() && (#[trigger] sr[i]).0 == k;
                    assert(s[i + sl.len() + 1].0 == k);
                }
            };
            assert forall|i: int, j: int| 0 <= i < j < s.len() implies (#[trigger] s[i]).0 < (
            #[trigger] s[j]).0 by {
                if i < sl.len() {
                    assert(s[i] == sl[i]);
                    assert(ml.dom().contains(sl[i].0));
                } else if i > sl.len() {
                    assert(s[i] == sr[i - sl.len() - 1]);
                }
                if j < sl.len() {
                    assert(s[j] == sl[j]);
                } else if j > sl.len() {
                    assert(s[j] == sr[j - sl.len() - 1]);
                    assert(mr.dom().contains(sr[j - sl.len() - 1].0));
                }
            };
        }
    }
}

impl<V> Node<V> {
    /// The keys of an optional subtree in ascending order.
    pub(crate) open spec fn optional_key_seq(node_opt: Option<Box<Node<V>>>) -> Seq<i64>
        decreases node_opt,
    {
        match node_opt {
            None => Seq::empty(),
            Some(node) => Node::<V>::optional_key_seq(node.left) + seq![node.key] + Node::<
                V,
            >::optional_key_seq(node.right),
        }
    }
}

/// The key sequence is the first projection of the in-order walk.
pub(crate) proof fn lemma_key_seq_is_kv_keys<V>(node_opt: Option<Box<Node<V>>>)
    ensures
        Node::<V>::optional_key_seq(node_opt).len() == Node::<V>::optional_kv_seq(node_opt).len(),
        forall|i: int|
            0 <= i < Node::<V>::optional_key_seq(node_opt).len() ==> #[trigger] Node::<
                V,
            >::optional_key_seq(node_opt)[i] == Node::<V>::optional_kv_seq(node_opt)[i].0,
    decreases node_opt,
{
    match node_opt {
        None => {}
        Some(node) => {
            lemma_key_seq_is_kv_keys(node.left);
            lemma_key_seq_is_kv_keys(node.right);
            let ks = Node::<V>::optional_key_seq(node_opt);
            let kvs = Node::<V>::optional_kv_seq(node_opt);
            let kl = Node::<V>::optional_key_seq(node.left);
            let vl = Node::<V>::optional_kv_seq(node.left);
            assert forall|i: int| 0 <= i < ks.len() implies #[trigger] ks[i] == kvs[i].0 by {
                if i < kl.len() {
                    assert(ks[i] == kl[i]);
                    assert(kvs[i] == vl[i]);
                } else if i > kl.len() {
                    assert(ks[i] == Node::<V>::optional_key_seq(node.right)[i - kl.len() - 1]);
                    assert(kvs[i] == Node::<V>::optional_kv_seq(node.right)[i - kl.len() - 1]);
                }
            };
        }
    }
}

impl<V> Node<V> {
    /// Appends the subtree's entries to `out` in ascending key order,
    /// consuming the nodes.
    pub(crate) fn into_entries(node: Option<Box<Node<V>>>, out: &mut Vec<(i64, V)>)
        ensures
            final(out)@ == old(out)@ + Node::<V>::optional_kv_seq(node),
        decreases node,
    {
        match node {
            None => {
                proof {
                    assert(final(out)@ =~= old(out)@ + Node::<V>::optional_kv_seq(None));
                }
            }
            Some(boxed) => {
                let ghost b0 = boxed;
                let n = *boxed;
                let Node { key, value, height: _, left, right } = n;
                Self::into_entries(left, out);
                out.push((key, value));
                Self::into_entries(right, out);
                proof {
                    assert(final(out)@ =~= old(out)@ + Node::<V>::optional_kv_seq(Some(b0)));
                }
            }
        }
    }

    /// Appends the subtree's keys to `out` in ascending order.
    pub(crate) fn collect_keys(node: &Option<Box<Node<V>>>, out: &mut Vec<i64>)
        ensures
            final(out)@ == old(out)@ + Node::<V>::optional_key_seq(*node),
        decreases *node,
    {
        match node {
            None => {
                proof {
                    assert(final(out)@ =~= old(out)@ + Node::<V>::optional_key_seq(None));
                }
            }
            Some(n) => {
                Self::collect_keys(&n.left, out);
                out.push(n.key);
                Self::collect_keys(&n.right, out);
                proof {
                    assert(final(out)@ =~= old(out)@ + Node::<V>::optional_key_seq(*node));
                }
            }
        }
    }
}

impl<V: Clone> Node<V> {
    /// Appends clones of the subtree's entries to `out` in ascending key
    /// order. The keys of the appended pairs are exact; each value is a
    /// clone of the one stored under its key.
    #[verifier::rlimit(80)]
    pub(crate) fn collect_entries(node: &Option<Box<Node<V>>>, out: &mut Vec<(i64, V)>)
        ensures
            final(out)@.len() == old(out)@.len() + Node::<V>::optional_kv_seq(*node).len(),
            forall|i: int| 0 <= i < old(out)@.len() ==> final(out)@[i] == old(out)@[i],
            forall|i: int|
                0 <= i < Node::<V>::optional_kv_seq(*node).len() ==> (#[trigger] final(out)@[i
                    + old(out)@.len()]).0 == Node::<V>::optional_kv_seq(*node)[i].0 && cloned::<
                V,
                >(Node::<V>::optional_kv_seq(*node)[i].1, final(out)@[i + old(out)@.len()].1),
            old(out)@.len() == 0 ==> (forall|i: int|
                0 <= i < Node::<V>::optional_kv_seq(*node).len() ==> (#[trigger] final(out)@[i]).0
                    == Node::<V>::optional_kv_seq(*node)[i].0 && cloned::<V>(
                    Node::<V>::optional_kv_seq(*node)[i].1,
                    final(out)@[i].1,
                )),
        decreases *node,
    {
        match node {
            None => {}
            Some(n) => {
                let ghost s = Node::<V>::optional_kv_seq(*node);
                let ghost sl = Node::<V>::optional_kv_seq(n.left);
                let ghost sr = Node::<V>::optional_kv_seq(n.right);
                let ghost base = out@.len() as int;
                Self::collect_entries(&n.left, out);
                let ghost o1 = out@;
                let cv = n.value.clone();
                let ghost cvg = cv;
                out.push((n.key, cv));
                let ghost o2 = out@;
                Self::collect_entries(&n.right, out);
                proof {
                    assert(s == sl + seq![(n.key, n.value)] + sr);
                    assert(o1.len() == base + sl.len());
                    assert(o2.len() == base + sl.len() + 1);
                    assert(cloned::<V>(n.value, cvg));
                    assert forall|i: int| 0 <= i < s.len() implies (#[trigger] out@[i + base]).0
                        == s[i].0 && cloned::<V>(s[i].1, out@[i + base].1) by {
                        if i < sl.len() {
                            assert(s[i] == sl[i]);
                            assert(o1[i + base].0 == sl[i].0 && cloned::<V>(
                                sl[i].1,
                                o1[i + base].1,
                            ));
                            assert(o2[i + base] == o1[i + base]);
                            assert(out@[i + base] == o2[i + base]);
                        } else if i == sl.len() {
                            assert(s[i] == (n.key, n.value));
                            assert(o2[i + base] == (n.key, cvg));
                            assert(out@[i + base] == o2[i + base]);
                        } else {
                            assert(s[i] == sr[i - sl.len() - 1]);
                            assert(out@[(i - sl.len() - 1) + o2.len() as int].0 == sr[i - sl.len()
                                - 1].0 && cloned::<V>(
                                sr[i - sl.len() - 1].1,
                                out@[(i - sl.len() - 1) + o2.len() as int].1,
                            ));
                        }
                    };
                    if base == 0 {
                        assert forall|i: int| 0 <= i < s.len() implies (#[trigger] out@[i]).0
                            == s[i].0 && cloned::<V>(s[i].1, out@[i].1) by {
                            assert(out@[i + base].0 == s[i].0 && cloned::<V>(
                                s[i].1,
                                out@[i + base].1,
                            ));
                        };
                    }
                }
            }
        }
    }

    /// Appends clones of the subtree's values to `out`, in ascending order
    /// of their keys: the value appended at position `i` is a clone of the
    /// value stored under the i-th key.
    #[verifier::rlimit(80)]
    pub(crate) fn collect_values(node: &Option<Box<Node<V>>>, out: &mut Vec<V>)
        ensures
            final(out)@.len() == old(out)@.len() + Node::<V>::optional_kv_seq(*node).len(),
            forall|i: int| 0 <= i < old(out)@.len() ==> final(out)@[i] == old(out)@[i],
            forall|i: int|
                0 <= i < Node::<V>::optional_kv_seq(*node).len() ==> cloned::<V>(
                    Node::<V>::optional_kv_seq(*node)[i].1,
                    #[trigger] final(out)@[i + old(out)@.len()],
                ),
            old(out)@.len() == 0 ==> (forall|i: int|
                0 <= i < Node::<V>::optional_kv_seq(*node).len() ==> cloned::<V>(
                    Node::<V>::optional_kv_seq(*node)[i].1,
                    #[trigger] final(out)@[i],
                )),
        decreases *node,
    {
        match node {
            None => {}
            Some(n) => {
                let ghost s = Node::<V>::optional_kv_seq(*node);
                let ghost sl = Node::<V>::optional_kv_seq(n.left);
                let ghost sr = Node::<V>::optional_kv_seq(n.right);
                let ghost base = out@.len() as int;
                Self::collect_values(&n.left, out);
                let ghost o1 = out@;
                let cv = n.value.clone();
                let ghost cvg = cv;
                out.push(cv);
                let ghost o2 = out@;
                Self::collect_values(&n.right, out);
                proof {
                    assert(s == sl + seq![(n.key, n.value)] + sr);
                    assert(o1.len() == base + sl.len());
                    assert(o2.len() == base + sl.len() + 1);
                    assert(cloned::<V>(n.value, cvg));
                    assert forall|i: int| 0 <= i < s.len() implies cloned::<V>(
                        s[i].1,
                        #[trigger] out@[i + base],
                    ) by {
                        if i < sl.len() {
                            assert(s[i] == sl[i]);
                            assert(cloned::<V>(sl[i].1, o1[i + base]));
                            assert(o2[i + base] == o1[i + base]);
                            assert(out@[i + base] == o2[i + base]);
                        } else if i == sl.len() {
                            assert(s[i] == (n.key, n.value));
                            assert(o2[i + base] == cvg);
                            assert(out@[i + base] == o2[i + base]);
                        } else {
                            assert(s[i] == sr[i - sl.len() - 1]);
                            assert(cloned::<V>(
                                sr[i - sl.len() - 1].1,
                                out@[(i - sl.len() - 1) + o2.len() as int],
                            ));
                        }
                    };
                    if base == 0 {
                        assert forall|i: int| 0 <= i < s.len() implies cloned::<V>(
                            s[i].1,
                            #[trigger] out@[i],
                        ) by {
                            assert(cloned::<V>(s[i].1, out@[i + base]));
                        };
                    }
                }
            }
        }
    }
}

/// Every key that a bound filter keeps is a key of the subtree.
pub(crate) proof fn lemma_filter_keys_in_dom<V>(
    node_opt: Option<Box<Node<V>>>,
    pred: spec_fn(i64) -> bool,
)
    requires
        Node::<V>::optional_bst_wf(node_opt),
    ensures
        forall|i: int|
            0 <= i < Node::<V>::optional_key_seq(node_opt).filter(pred).len() ==> Node::<
                V,
            >::optional_as_map(node_opt).dom().contains(
                #[trigger] Node::<V>::optional_key_seq(node_opt).filter(pred)[i],
            ),
{
    lemma_kv_seq_props(node_opt);
    lemma_key_seq_is_kv_keys(node_opt);
    let ks = Node::<V>::optional_key_seq(node_opt);
    let f = ks.filter(pred);
    assert forall|i: int| 0 <= i < f.len() implies Node::<V>::optional_as_map(
        node_opt,
    ).dom().contains(#[trigger] f[i]) by {
        assert(f.contains(f[i]));
        ks.lemma_filter_contains_rev(pred, f[i]);
        let y = choose|y: int| 0 <= y < ks.len() && ks[y] == f[i];
        assert(Node::<V>::optional_as_map(node_opt).dom().contains(
            Node::<V>::optional_kv_seq(node_opt)[y].0,
        ));
        assert(ks[y] == Node::<V>::optional_kv_seq(node_opt)[y].0);
    };
}

/// When the start bound is at or above a node's key, no key of its left
/// subtree falls within the range.
proof fn lemma_range_skips_left<V>(n: Box<Node<V>>, start: Bound, end: Bound)
    requires
        n.bst_wf(),
        !(match start {
            Bound::Unbounded => true,
            Bound::Included(a) => a < n.key,
            Bound::Excluded(a) => a < n.key,
        }),
    ensures
        Node::<V>::optional_key_seq(n.left).filter((|k: i64| in_bounds(k, start, end))) == Seq::<
            i64,
        >::empty(),
{
    lemma_kv_seq_props(n.left);
    lemma_key_seq_is_kv_keys(n.left);
    let kl = Node::<V>::optional_key_seq(n.left);
    let pred = (|k: i64| in_bounds(k, start, end));
    assert forall|y: int| 0 <= y < kl.len() implies !pred(#[trigger] kl[y]) by {
        assert(Node::<V>::optional_as_map(n.left).dom().contains(
            Node::<V>::optional_kv_seq(n.left)[y].0,
        ));
        assert(kl[y] < n.key);
    };
    assert(kl.all((|k: i64| !pred(k))));
    kl.lemma_all_neg_filter_empty(pred);
    assert(kl.filter(pred) =~= Seq::<i64>::empty());
}

/// When the end bound is at or below a node's key, no key of its right
/// subtree falls within the range.
proof fn lemma_range_skips_right<V>(n: Box<Node<V>>, start: Bound, end: Bound)
    requires
        n.bst_wf(),
        !(match end {
            Bound::Unbounded => true,
            Bound::Included(b) => n.key < b,
            Bound::Excluded(b) => n.key < b,
        }),
    ensures
        Node::<V>::optional_key_seq(n.right).filter((|k: i64| in_bounds(k, start, end))) == Seq::<
            i64,
        >::empty(),
{
    lemma_kv_seq_props(n.right);
    lemma_key_seq_is_kv_keys(n.right);
    let kr = Node::<V>::optional_key_seq(n.right);
    let pred = (|k: i64| in_bounds(k, start, end));
    assert forall|y: int| 0 <= y < kr.len() implies !pred(#[trigger] kr[y]) by {
        assert(Node::<V>::optional_as_map(n.right).dom().contains(
            Node::<V>::optional_kv_seq(n.right)[y].0,
        ));
        assert(kr[y] > n.key);
    };
    assert(kr.all((|k: i64| !pred(k))));
    kr.lemma_all_neg_filter_empty(pred);
    assert(kr.filter(pred) =~= Seq::<i64>::empty());
}

impl<V: Clone> Node<V> {
    /// Appends the subtree's keys that fall within the given bounds, in
    /// ascending order. A subtree that lies entirely outside a bound is
    /// skipped without being visited, so each bound is resolved by the
    /// descent itself.
    #[verifier::rlimit(100)]
    #[verifier::spinoff_prover]
    pub(crate) fn collect_range_keys(
        node: &Option<Box<Node<V>>>,
        start: Bound,
        end: Bound,
        out: &mut Vec<i64>,
    )
        requires
            Node::<V>::optional_bst_wf(*node),
        ensures
            ({
                let f = Node::<V>::optional_key_seq(*node).filter(
                    (|k: i64| in_bounds(k, start, end)),
                );
                &&& final(out)@.len() == old(out)@.len() + f.len()
                &&& (forall|i: int| 0 <= i < old(out)@.len() ==> final(out)@[i] == old(out)@[i])
                &&& (forall|i: int|
                    0 <= i < f.len() ==> #[trigger] final(out)@[i + old(out)@.len()] == f[i])
                &&& (old(out)@.len() == 0 ==> (forall|i: int|
                    0 <= i < f.len() ==> #[trigger] final(out)@[i] == f[i]))
            }),
        decreases *node,
    {
        let ghost pred = (|k: i64| in_bounds(k, start, end));
        match node {
            None => {
                proof {
                    reveal_with_fuel(Seq::filter, 1);
                    assert(Node::<V>::optional_key_seq(*node).filter(pred) =~= Seq::empty());
                }
            }
            Some(n) => {
                let ghost ks = Node::<V>::optional_key_seq(*node);
                let ghost kl = Node::<V>::optional_key_seq(n.left);
                let ghost kr = Node::<V>::optional_key_seq(n.right);
                let ghost fm: Seq<i64> = if pred(n.key) {
                    seq![n.key]
                } else {
                    Seq::empty()
                };
                proof {
                    assert(ks == kl + seq![n.key] + kr);
                    lemma_filter_concat3(kl, n.key, kr, pred);
                }
                let ghost base = out@.len() as int;
                let go_left = match start {
                    Bound::Unbounded => true,
                    Bound::Included(a) => a < n.key,
                    Bound::Excluded(a) => a < n.key,
                };
                if go_left {
                    Self::collect_range_keys(&n.left, start, end, out);
                } else {
                    proof {
                        lemma_range_skips_left(*n, start, end);
                    }
                }
                let ghost o1 = out@;
                if bound_allows_above(&start, n.key) && bound_allows_below(&end, n.key) {
                    out.push(n.key);
                }
                let ghost o2 = out@;
                let go_right = match end {
                    Bound::Unbounded => true,
                    Bound::Included(b) => n.key < b,
                    Bound::Excluded(b) => n.key < b,
                };
                if go_right {
                    Self::collect_range_keys(&n.right, start, end, out);
                } else {
                    proof {
                        lemma_range_skips_right(*n, start, end);
                    }
                }
                proof {
                    let f = ks.filter(pred);
                    let fl = kl.filter(pred);
                    let fr = kr.filter(pred);
                    assert(f == fl + fm + fr);
                    assert(o1.len() == base + fl.len());
                    assert(o2.len() == o1.len() + fm.len());
                    assert forall|i: int| 0 <= i < f.len() implies #[trigger] out@[i + base]
                        == f[i] by {
                        if i < fl.len() {
                            assert(f[i] == fl[i]);
                            assert(o1[i + base] == fl[i]);
                            assert(o2[i + base] == o1[i + base]);
                            assert(out@[i + base] == o2[i + base]);
                        } else if i < fl.len() + fm.len() {
                            assert(f[i] == fm[i - fl.len()]);
                            assert(o2[i + base] == n.key);
                            assert(out@[i + base] == o2[i + base]);
                        } else {
                            assert(f[i] == fr[i - fl.len() - fm.len()]);
                            assert(out@[(i - fl.len() - fm.len()) + o2.len() as int] == fr[i
                                - fl.len() - fm.len()]);
                        }
                    };
                    if base == 0 {
                        assert forall|i: int| 0 <= i < f.len() implies #[trigger] out@[i]
                            == f[i] by {
                            assert(out@[i + base] == f[i]);
                        };
                    }
                }
            }
        }
    }

    /// Collects the entries whose keys fall within the given bounds into a
    /// fresh vector, in ascending key order: exactly the keys of the
    /// filtered key sequence, each paired with a clone of the value the
    /// tree stores under it.
    pub(crate) fn range_vec(node: &Option<Box<Node<V>>>, start: Bound, end: Bound) -> (r: Vec<
        (i64, V),
    >)
        requires
            Node::<V>::optional_bst_wf(*node),
        ensures
            ({
                let f = Node::<V>::optional_key_seq(*node).filter(
                    (|k: i64| in_bounds(k, start, end)),
                );
                let m = Node::<V>::optional_as_map(*node);
                &&& r@.len() == f.len()
                &&& (forall|i: int|
                    0 <= i < f.len() ==> (#[trigger] r@[i]).0 == f[i] && m.dom().contains(f[i])
                        && cloned::<V>(m[f[i]], r@[i].1))
            }),
    {
        let ghost pred = (|k: i64| in_bounds(k, start, end));
        let ghost f = Node::<V>::optional_key_seq(*node).filter(pred);
        let ghost m = Node::<V>::optional_as_map(*node);
        proof {
            lemma_filter_keys_in_dom(*node, pred);
        }
        let mut keys: Vec<i64> = Vec::new();
        Self::collect_range_keys(node, start, end, &mut keys);
        let mut r: Vec<(i64, V)> = Vec::new();
        let mut idx: usize = 0;
        while idx < keys.len()
            invariant
                Node::<V>::optional_bst_wf(*node),
                f == Node::<V>::optional_key_seq(*node).filter(pred),
                m == Node::<V>::optional_as_map(*node),
                keys@.len() == f.len(),
                forall|y: int| 0 <= y < f.len() ==> #[trigger] keys@[y] == f[y],
                forall|y: int| 0 <= y < f.len() ==> m.dom().contains(#[trigger] f[y]),
                idx <= keys@.len(),
                r@.len() == idx,
                forall|y: int|
                    0 <= y < idx ==> (#[trigger] r@[y]).0 == f[y] && cloned::<V>(m[f[y]], r@[y].1),
            decreases keys@.len() - idx,
        {
            let k = keys[idx];
            proof {
                assert(keys@[idx as int] == f[idx as int]);
                assert(m.dom().contains(k));
            }
            let vref = Self::get_from_optional(node, k).unwrap();
            let cv = vref.clone();
            r.push((k, cv));
            idx = idx + 1;
        }
        r
    }
}

impl<V> Node<V> {
    /// Walks the subtree and re-derives the consistency checks: stored
    /// heights match the recomputed ones, every node is balanced, and the
    /// returned node count is exact. Verification discharges each check, so
    /// the walk cannot fail at run time.
    pub(crate) fn check_node(node: &Option<Box<Node<V>>>) -> (c: usize)
        requires
            Node::<V>::optional_well_formed(*node),
            Node::<V>::count(*node) <= usize::MAX,
        ensures
            c == Node::<V>::count(*node),
        decreases *node,
    {
        match node {
            None => 0,
            Some(n) => {
                let lc = Self::check_node(&n.left);
                let rc = Self::check_node(&n.right);
                let lh = Self::sub_height(&n.left);
                let rh = Self::sub_height(&n.right);
                let expected: usize = 1 + if lh >= rh {
                    lh
                } else {
                    rh
                };
                assert(n.height == expected);
                assert(lh <= rh + 1 && rh <= lh + 1);
                lc + rc + 1
            }
        }
    }
}

impl<V: Clone> Node<V> {
    /// Structure-preserving copy: the copy has the same keys, the same
    /// shape and the same heights; each copied pair holds the original key
    /// with a clone of the value stored under it.
    #[verifier::rlimit(80)]
    pub(crate) fn clone_node(node: &Option<Box<Node<V>>>) -> (r: Option<Box<Node<V>>>)
        ensures
            r is Some <==> *node is Some,
            Node::<V>::count(r) == Node::<V>::count(*node),
            Node::<V>::opt_height(r) == Node::<V>::opt_height(*node),
            Node::<V>::optional_key_seq(r) == Node::<V>::optional_key_seq(*node),
            Node::<V>::optional_as_map(r).dom() == Node::<V>::optional_as_map(*node).dom(),
            Node::<V>::optional_kv_seq(r).len() == Node::<V>::optional_kv_seq(*node).len(),
            forall|i: int|
                0 <= i < Node::<V>::optional_kv_seq(*node).len() ==> (#[trigger] Node::<
                    V,
                >::optional_kv_seq(r)[i]).0 == Node::<V>::optional_kv_seq(*node)[i].0 && cloned::<
                V,
                >(Node::<V>::optional_kv_seq(*node)[i].1, Node::<V>::optional_kv_seq(r)[i].1),
            Node::<V>::optional_heights_wf(*node) ==> Node::<V>::optional_heights_wf(r),
            Node::<V>::optional_balanced(*node) ==> Node::<V>::optional_balanced(r),
            Node::<V>::optional_bst_wf(*node) ==> Node::<V>::optional_bst_wf(r),
        decreases *node,
    {
        match node {
            None => {
                proof {
                    assert(Node::<V>::optional_as_map(None::<Box<Node<V>>>).dom()
                        =~= Node::<V>::optional_as_map(*node).dom());
                }
                None
            }
            Some(n) => {
                let left = Self::clone_node(&n.left);
                let right = Self::clone_node(&n.right);
                let cv = n.value.clone();
                let ghost cvg = cv;
                let c = Box::new(Node::<V> { key: n.key, value: cv, height: n.height, left, right });
                proof {
                    assert(Node::<V>::optional_key_seq(Some(c)) =~= Node::<V>::optional_key_seq(
                        *node,
                    ));
                    assert(c.as_map().dom() =~= n.as_map().dom());
                    if n.bst_wf() {
                        assert(c.bst_wf());
                    }
                    if n.heights_wf() {
                        assert(c.heights_wf());
                    }
                    if n.balanced() {
                        assert(c.balanced());
                    }
                    assert(cloned::<V>(n.value, cvg));
                    let sn = Node::<V>::optional_kv_seq(*node);
                    let sr = Node::<V>::optional_kv_seq(Some(c));
                    let nl = Node::<V>::optional_kv_seq(n.left);
                    let cl = Node::<V>::optional_kv_seq(c.left);
                    assert(sn == nl + seq![(n.key, n.value)] + Node::<V>::optional_kv_seq(n.right));
                    assert(sr == cl + seq![(n.key, cvg)] + Node::<V>::optional_kv_seq(c.right));
                    assert forall|i: int| 0 <= i < sn.len() implies (#[trigger] sr[i]).0 == sn[i].0
                        && cloned::<V>(sn[i].1, sr[i].1) by {
                        if i < nl.len() {
                            assert(sn[i] == nl[i]);
                            assert(sr[i] == cl[i]);
                        } else if i == nl.len() {
                            assert(sn[i] == (n.key, n.value));
                            assert(sr[i] == (n.key, cvg));
                        } else {
                            assert(sn[i] == Node::<V>::optional_kv_seq(n.right)[i - nl.len() - 1]);
                            assert(sr[i] == Node::<V>::optional_kv_seq(c.right)[i - nl.len() - 1]);
                        }
                    };
                }
                Some(c)
            }
        }
    }
}

/// Whether the key satisfies the start bound of a range.
pub(crate) fn bound_allows_above(start: &Bound, k: i64) -> (r: bool)
    ensures
        r == crate::map::above_start(k, *start),
{
    match start {
        Bound::Unbounded => true,
        Bound::Included(a) => k >= *a,
        Bound::Excluded(a) => k > *a,
    }
}

/// Whether the key satisfies the end bound of a range.
pub(crate) fn bound_allows_below(end: &Bound, k: i64) -> (r: bool)
    ensures
        r == crate::map::below_end(k, *end),
{
    match end {
        Bound::Unbounded => true,
        Bound::Included(b) => k <= *b,
        Bound::Excluded(b) => k < *b,
    }
}

/// Splitting a filtered walk at one node: the parts filter independently.
pub(crate) proof fn lemma_filter_concat3(kl: Seq<i64>, mid_k: i64, kr: Seq<i64>, pred: spec_fn(i64) -> bool)
    ensures
        (kl + seq![mid_k] + kr).filter(pred) == kl.filter(pred) + (if pred(mid_k) {
            seq![mid_k]
        } else {
            Seq::<i64>::empty()
        }) + kr.filter(pred),
{
    Seq::filter_distributes_over_add(kl + seq![mid_k], kr, pred);
    Seq::filter_distributes_over_add(kl, seq![mid_k], pred);
    reveal_with_fuel(Seq::filter, 2);
    if pred(mid_k) {
        assert(seq![mid_k].filter(pred) =~= seq![mid_k]);
    } else {
        assert(seq![mid_k].filter(pred) =~= Seq::<i64>::empty());
    }
}

/// In an ordered subtree the number of nodes equals the number of keys.
pub(crate) proof fn lemma_count_is_dom_len<V>(node_opt: Option<Box<Node<V>>>)
    requires
        Node::<V>::optional_bst_wf(node_opt),
    ensures
        Node::<V>::optional_as_map(node_opt).dom().finite(),
        Node::<V>::optional_as_map(node_opt).dom().len() == Node::<V>::count(node_opt),
    decreases node_opt,
{
    match node_opt {
        None => {
            assert(Node::<V>::optional_as_map(node_opt).dom() =~= Set::empty());
        }
        Some(node) => {
            lemma_count_is_dom_len(node.left);
            lemma_count_is_dom_len(node.right);
            let l = Node::<V>::optional_as_map(node.left).dom();
            let r = Node::<V>::optional_as_map(node.right).dom();
            vstd::set_lib::lemma_set_disjoint_lens(l, r);
            assert(l.disjoint(r));
            assert(node.as_map().dom() =~= (l + r).insert(node.key));
            assert(!(l + r).contains(node.key));
        }
    }
}

/// The map formed by inserting the first `j` pairs of a sequence in order.
pub(crate) open spec fn prefix_map<V>(s: Seq<(i64, V)>, j: int) -> Map<i64, V>
    decreases j,
{
    if j <= 0 {
        Map::empty()
    } else {
        prefix_map(s, j - 1).insert(s[j - 1].0, s[j - 1].1)
    }
}

/// With pairwise distinct keys, the prefix map holds exactly the pairs of
/// the prefix.
pub(crate) proof fn lemma_prefix_map_props<V>(s: Seq<(i64, V)>, j: int)
    requires
        0 <= j <= s.len(),
        forall|i1: int, i2: int|
            0 <= i1 < i2 < s.len() ==> (#[trigger] s[i1]).0 != (#[trigger] s[i2]).0,
    ensures
        forall|k: i64|
            prefix_map(s, j).dom().contains(k) <==> exists|i: int|
                0 <= i < j && (#[trigger] s[i]).0 == k,
        forall|i: int| 0 <= i < j ==> prefix_map(s, j)[(#[trigger] s[i]).0] == s[i].1,
    decreases j,
{
    if j > 0 {
        lemma_prefix_map_props(s, j - 1);
        assert forall|k: i64| prefix_map(s, j).dom().contains(k) implies exists|i: int|
            0 <= i < j && (#[trigger] s[i]).0 == k by {
            if k == s[j - 1].0 {
                assert(s[j - 1].0 == k);
            } else {
                assert(prefix_map(s, j - 1).dom().contains(k));
                assert(exists|i: int| 0 <= i < j - 1 && (#[trigger] s[i]).0 == k);
                let i = choose|i: int| 0 <= i < j - 1 && (#[trigger] s[i]).0 == k;
                assert(0 <= i < j && s[i].0 == k);
            }
        };
        assert forall|i: int| 0 <= i < j implies prefix_map(s, j)[(#[trigger] s[i]).0]
            == s[i].1 by {
            if i < j - 1 {
                assert(s[i].0 != s[j - 1].0);
            }
        };
    }
}

impl<V> Node<V> {
    /// The keys of an optional subtree in pre-order: each node before its
    /// subtrees, left before right.
    pub(crate) open spec fn optional_pre_seq(node_opt: Option<Box<Node<V>>>) -> Seq<i64>
        decreases node_opt,
    {
        match node_opt {
            None => Seq::empty(),
            Some(node) => seq![node.key] + Node::<V>::optional_pre_seq(node.left) + Node::<
                V,
            >::optional_pre_seq(node.right),
        }
    }

    /// The keys of an optional subtree in post-order: each node after its
    /// subtrees, left before right.
    pub(crate) open spec fn optional_post_seq(node_opt: Option<Box<Node<V>>>) -> Seq<i64>
        decreases node_opt,
    {
        match node_opt {
            None => Seq::empty(),
            Some(node) => Node::<V>::optional_post_seq(node.left) + Node::<V>::optional_post_seq(
                node.right,
            ) + seq![node.key],
        }
    }

    /// Appends the subtree's keys to `out` in pre-order.
    pub(crate) fn collect_pre(node: &Option<Box<Node<V>>>, out: &mut Vec<i64>)
        ensures
            final(out)@ == old(out)@ + Node::<V>::optional_pre_seq(*node),
        decreases *node,
    {
        match node {
            None => {
                proof {
                    assert(final(out)@ =~= old(out)@ + Node::<V>::optional_pre_seq(None));
                }
            }
            Some(n) => {
                out.push(n.key);
                Self::collect_pre(&n.left, out);
                Self::collect_pre(&n.right, out);
                proof {
                    assert(final(out)@ =~= old(out)@ + Node::<V>::optional_pre_seq(*node));
                }
            }
        }
    }

    /// Appends the subtree's keys to `out` in post-order.
    pub(crate) fn collect_post(node: &Option<Box<Node<V>>>, out: &mut Vec<i64>)
        ensures
            final(out)@ == old(out)@ + Node::<V>::optional_post_seq(*node),
        decreases *node,
    {
        match node {
            None => {
                proof {
                    assert(final(out)@ =~= old(out)@ + Node::<V>::optional_post_seq(None));
                }
            }
            Some(n) => {
                Self::collect_post(&n.left, out);
                Self::collect_post(&n.right, out);
                out.push(n.key);
                proof {
                    assert(final(out)@ =~= old(out)@ + Node::<V>::optional_post_seq(*node));
                }
            }
        }
    }
}

/// Every traversal order lists each node exactly once.
pub(crate) proof fn lemma_traversal_lens<V>(node_opt: Option<Box<Node<V>>>)
    ensures
        Node::<V>::optional_pre_seq(node_opt).len() == Node::<V>::count(node_opt),
        Node::<V>::optional_post_seq(node_opt).len() == Node::<V>::count(node_opt),
    decreases node_opt,
{
    match node_opt {
        None => {}
        Some(node) => {
            lemma_traversal_lens(node.left);
            lemma_traversal_lens(node.right);
        }
    }
}

/// Membership and distinctness of the pre-order walk: it lists exactly the
/// keys of the subtree, each once.
pub(crate) proof fn lemma_pre_seq_props<V>(node_opt: Option<Box<Node<V>>>)
    requires
        Node::<V>::optional_bst_wf(node_opt),
    ensures
        Node::<V>::optional_pre_seq(node_opt).len() == Node::<V>::count(node_opt),
        forall|i: int|
            0 <= i < Node::<V>::optional_pre_seq(node_opt).len()
                ==> Node::<V>::optional_as_map(node_opt).dom().contains(
                #[trigger] Node::<V>::optional_pre_seq(node_opt)[i],
            ),
        forall|k: i64|
            Node::<V>::optional_as_map(node_opt).dom().contains(k) ==> exists|i: int|
                0 <= i < Node::<V>::optional_pre_seq(node_opt).len() && #[trigger] Node::<
                    V,
                >::optional_pre_seq(node_opt)[i] == k,
        forall|i: int, j: int|
            0 <= i < j < Node::<V>::optional_pre_seq(node_opt).len() ==> #[trigger] Node::<
                V,
            >::optional_pre_seq(node_opt)[i] != #[trigger] Node::<V>::optional_pre_seq(
                node_opt,
            )[j],
    decreases node_opt,
{
    match node_opt {
        None => {}
        Some(node) => {
            lemma_pre_seq_props(node.left);
            lemma_pre_seq_props(node.right);
            lemma_traversal_lens(node.left);
            lemma_traversal_lens(node.right);
            let p = Node::<V>::optional_pre_seq(node_opt);
            let pl = Node::<V>::optional_pre_seq(node.left);
            let pr = Node::<V>::optional_pre_seq(node.right);
            let ml = Node::<V>::optional_as_map(node.left);
            let mr = Node::<V>::optional_as_map(node.right);
            let m = Node::<V>::optional_as_map(node_opt);
            assert(p == seq![node.key] + pl + pr);
            assert(m == ml.union_prefer_right(mr).insert(node.key, node.value));
            assert forall|i: int| 0 <= i < p.len() implies m.dom().contains(#[trigger] p[i]) by {
                if i == 0 {
                    assert(p[i] == node.key);
                } else if i <= pl.len() {
                    assert(p[i] == pl[i - 1]);
                    assert(ml.dom().contains(pl[i - 1]));
                } else {
                    assert(p[i] == pr[i - 1 - pl.len()]);
                    assert(mr.dom().contains(pr[i - 1 - pl.len()]));
                }
            };
            assert forall|k: i64| m.dom().contains(k) implies exists|i: int|
                0 <= i < p.len() && #[trigger] p[i] == k by {
                if k == node.key {
                    assert(p[0] == k);
                } else if ml.dom().contains(k) {
                    let i = choose|i: int| 0 <= i < pl.len() && #[trigger] pl[i] == k;
                    assert(p[i + 1] == k);
                } else {
                    assert(mr.dom().contains(k));
                    let i = choose|i: int| 0 <= i < pr.len() && #[trigger] pr[i] == k;
                    assert(p[i + 1 + pl.len()] == k);
                }
            };
            assert forall|i: int, j: int| 0 <= i < j < p.len() implies #[trigger] p[i]
                != #[trigger] p[j] by {
                if i == 0 {
                    assert(p[i] == node.key);
                    if j <= pl.len() {
                        assert(p[j] == pl[j - 1]);
                        assert(ml.dom().contains(pl[j - 1]));
                    } else {
                        assert(p[j] == pr[j - 1 - pl.len()]);
                        assert(mr.dom().contains(pr[j - 1 - pl.len()]));
                    }
                } else if j <= pl.len() {
                    assert(p[i] == pl[i - 1] && p[j] == pl[j - 1]);
                } else if i > pl.len() {
                    assert(p[i] == pr[i - 1 - pl.len()] && p[j] == pr[j - 1 - pl.len()]);
                } else {
                    assert(p[i] == pl[i - 1] && p[j] == pr[j - 1 - pl.len()]);
                    assert(ml.dom().contains(pl[i - 1]));
                    assert(mr.dom().contains(pr[j - 1 - pl.len()]));
                    assert(pl[i - 1] < node.key);
                    assert(pr[j - 1 - pl.len()] > node.key);
                }
            };
        }
    }
}

/// Membership and distinctness of the post-order walk: it lists exactly the
/// keys of the subtree, each once.
pub(crate) proof fn lemma_post_seq_props<V>(node_opt: Option<Box<Node<V>>>)
    requires
        Node::<V>::optional_bst_wf(node_opt),
    ensures
        Node::<V>::optional_post_seq(node_opt).len() == Node::<V>::count(node_opt),
        forall|i: int|
            0 <= i < Node::<V>::optional_post_seq(node_opt).len()
                ==> Node::<V>::optional_as_map(node_opt).dom().contains(
                #[trigger] Node::<V>::optional_post_seq(node_opt)[i],
            ),
        forall|k: i64|
            Node::<V>::optional_as_map(node_opt).dom().contains(k) ==> exists|i: int|
                0 <= i < Node::<V>::optional_post_seq(node_opt).len() && #[trigger] Node::<
                    V,
                >::optional_post_seq(node_opt)[i] == k,
        forall|i: int, j: int|
            0 <= i < j < Node::<V>::optional_post_seq(node_opt).len() ==> #[trigger] Node::<
                V,
            >::optional_post_seq(node_opt)[i] != #[trigger] Node::<V>::optional_post_seq(
                node_opt,
            )[j],
    decreases node_opt,
{
    match node_opt {
        None => {}
        Some(node) => {
            lemma_post_seq_props(node.left);
            lemma_post_seq_props(node.right);
            lemma_traversal_lens(node.left);
            lemma_traversal_lens(node.right);
            let p = Node::<V>::optional_post_seq(node_opt);
            let pl = Node::<V>::optional_post_seq(node.left);
            let pr = Node::<V>::optional_post_seq(node.right);
            let ml = Node::<V>::optional_as_map(node.left);
            let mr = Node::<V>::optional_as_map(node.right);
            let m = Node::<V>::optional_as_map(node_opt);
            assert(p == pl + pr + seq![node.key]);
            assert(m == ml.union_prefer_right(mr).insert(node.key, node.value));
            assert forall|i: int| 0 <= i < p.len() implies m.dom().contains(#[trigger] p[i]) by {
                if i < pl.len() {
                    assert(p[i] == pl[i]);
                    assert(ml.dom().contains(pl[i]));
                } else if i < pl.len() + pr.len() {
                    assert(p[i] == pr[i - pl.len()]);
                    assert(mr.dom().contains(pr[i - pl.len()]));
                } else {
                    assert(p[i] == node.key);
                }
            };
            assert forall|k: i64| m.dom().contains(k) implies exists|i: int|
                0 <= i < p.len() && #[trigger] p[i] == k by {
                if k == node.key {
                    assert(p[p.len() - 1] == k);
                } else if ml.dom().contains(k) {
                    let i = choose|i: int| 0 <= i < pl.len() && #[trigger] pl[i] == k;
                    assert(p[i] == k);
                } else {
                    assert(mr.dom().contains(k));
                    let i = choose|i: int| 0 <= i < pr.len() && #[trigger] pr[i] == k;
                    assert(p[i + pl.len()] == k);
                }
            };
            assert forall|i: int, j: int| 0 <= i < j < p.len() implies #[trigger] p[i]
                != #[trigger] p[j] by {
                if j == p.len() - 1 {
                    assert(p[j] == node.key);
                    if i < pl.len() {
                        assert(p[i] == pl[i]);
                        assert(ml.dom().contains(pl[i]));
                    } else {
                        assert(p[i] == pr[i - pl.len()]);
                        assert(mr.dom().contains(pr[i - pl.len()]));
                    }
                } else if j < pl.len() {
                    assert(p[i] == pl[i] && p[j] == pl[j]);
                } else if i >= pl.len() {
                    assert(p[i] == pr[i - pl.len()] && p[j] == pr[j - pl.len()]);
                } else {
                    assert(p[i] == pl[i] && p[j] == pr[j - pl.len()]);
                    assert(ml.dom().contains(pl[i]));
                    assert(mr.dom().contains(pr[j - pl.len()]));
                    assert(pl[i] < node.key);
                    assert(pr[j - pl.len()] > node.key);
                }
            };
        }
    }
}

/// Powers of two are positive and grow with the exponent.
pub(crate) proof fn lemma_pow2_mono(a: nat, b: nat)
    requires
        a <= b,
    ensures
        1 <= pow2(a) <= pow2(b),
    decreases b,
{
    if a == b {
        if a > 0 {
            lemma_pow2_mono((a - 1) as nat, (a - 1) as nat);
        }
    } else {
        lemma_pow2_mono(a, (b - 1) as nat);
        assert(pow2(b) == 2 * pow2((b - 1) as nat));
    }
}

/// A subtree with a given number of levels cannot hold more nodes than a
/// complete binary tree of that depth.
pub(crate) proof fn lemma_count_le_pow2<V>(node_opt: Option<Box<Node<V>>>)
    ensures
        Node::<V>::count(node_opt) + 1 <= pow2(Node::<V>::opt_height(node_opt)),
    decreases node_opt,
{
    match node_opt {
        None => {}
        Some(node) => {
            lemma_count_le_pow2(node.left);
            lemma_count_le_pow2(node.right);
            let h = Node::<V>::opt_height(node_opt);
            let hl = Node::<V>::opt_height(node.left);
            let hr = Node::<V>::opt_height(node.right);
            lemma_pow2_mono(hl, (h - 1) as nat);
            lemma_pow2_mono(hr, (h - 1) as nat);
            assert(pow2(h) == 2 * pow2((h - 1) as nat));
        }
    }
}

/// More levels need at least as many nodes.
pub(crate) proof fn lemma_min_size_mono(a: nat, b: nat)
    requires
        a <= b,
    ensures
        min_size(a) <= min_size(b),
    decreases b,
{
    if a < b {
        lemma_min_size_mono(a, (b - 1) as nat);
        assert(min_size(((b - 1) as nat)) <= min_size(b));
    }
}

/// From four levels up, a balanced tree holds more than twice as many nodes
/// as it has levels, less one.
pub(crate) proof fn lemma_min_size_lower(h: nat)
    requires
        h >= 4,
    ensures
        min_size(h) >= 2 * h - 1,
    decreases h,
{
    assert(min_size(0) == 0);
    assert(min_size(1) == 1);
    assert(min_size(2) == 2);
    assert(min_size(3) == 4);
    assert(min_size(4) == 7);
    assert(min_size(5) == 12);
    if h >= 6 {
        lemma_min_size_lower((h - 1) as nat);
        lemma_min_size_lower((h - 2) as nat);
        assert(min_size(h) == 1 + min_size((h - 1) as nat) + min_size((h - 2) as nat));
    }
}

/// A balanced subtree with correct stored heights has at least the minimal
/// number of nodes for its number of levels.
pub(crate) proof fn lemma_count_ge_min_size<V>(node_opt: Option<Box<Node<V>>>)
    requires
        Node::<V>::optional_heights_wf(node_opt),
        Node::<V>::optional_balanced(node_opt),
    ensures
        Node::<V>::count(node_opt) >= min_size(Node::<V>::opt_height(node_opt)),
    decreases node_opt,
{
    match node_opt {
        None => {}
        Some(node) => {
            lemma_count_ge_min_size(node.left);
            lemma_count_ge_min_size(node.right);
            let hl = Node::<V>::opt_height(node.left);
            let hr = Node::<V>::opt_height(node.right);
            let h = Node::<V>::opt_height(node_opt);
            if h >= 2 {
                if hl >= hr {
                    lemma_min_size_mono((h - 2) as nat, hr);
                } else {
                    lemma_min_size_mono((h - 2) as nat, hl);
                }
                assert(min_size(h) == 1 + min_size((h - 1) as nat) + min_size((h - 2) as nat));
            }
        }
    }
}

/// A subtree never has more levels than nodes.
pub(crate) proof fn lemma_opt_height_le_count<V>(node_opt: Option<Box<Node<V>>>)
    ensures
        Node::<V>::opt_height(node_opt) <= Node::<V>::count(node_opt),
    decreases node_opt,
{
    match node_opt {
        None => {}
        Some(node) => {
            lemma_opt_height_le_count(node.left);
            lemma_opt_height_le_count(node.right);
        }
    }
}

impl<V> Node<V> {
    /// Number of levels of an optional subtree, read from the stored heights.
    fn sub_height(node_opt: &Option<Box<Node<V>>>) -> (h: usize)
        requires
            Node::<V>::optional_heights_wf(*node_opt),
        ensures
            h == Node::<V>::opt_height(*node_opt),
    {
        match node_opt {
            None => 0,
            Some(node) => node.height,
        }
    }

    /// Rotates the given node to the left, promoting its right child.
    /// The subtrees keep their contents; the two reshaped nodes get
    /// recomputed heights.
    #[verifier::rlimit(80)]
    fn rotate_left(n: Box<Node<V>>) -> (r: Box<Node<V>>)
        requires
            n.right is Some,
            Node::<V>::optional_bst_wf(n.left),
            Node::<V>::optional_bst_wf(n.right),
            Node::<V>::optional_heights_wf(n.left),
            Node::<V>::optional_heights_wf(n.right),
            forall|elem| Node::<V>::optional_as_map(n.left).dom().contains(elem) ==> elem < n.key,
            forall|elem| Node::<V>::optional_as_map(n.right).dom().contains(elem) ==> elem > n.key,
            Node::<V>::count(Some(n)) <= usize::MAX,
        ensures
            r.key == n.right.unwrap().key,
            r.right == n.right.unwrap().right,
            r.left is Some,
            r.left.unwrap().key == n.key,
            r.left.unwrap().left == n.left,
            r.left.unwrap().right == n.right.unwrap().left,
            r.bst_wf(),
            r.heights_wf(),
            Node::<V>::optional_as_map(Some(r)) =~= n.as_map(),
            Node::<V>::count(Some(r)) == Node::<V>::count(Some(n)),
    {
        let ghost n0 = n;
        let mut n = n;
        let mut rt: Box<Node<V>> = n.right.take().unwrap();
        let ghost rt0 = rt;
        proof {
            lemma_opt_height_le_count(n.left);
            lemma_opt_height_le_count(rt.left);
            lemma_opt_height_le_count(rt.right);
            assert(Node::<V>::count(Some(n0)) == 1 + Node::<V>::count(n0.left) + Node::<V>::count(
                Some(rt0),
            ));
            assert(Node::<V>::count(Some(rt0)) == 1 + Node::<V>::count(rt0.left)
                + Node::<V>::count(rt0.right));
        }
        n.right = rt.left.take();
        let lh = Self::sub_height(&n.left);
        let rh = Self::sub_height(&n.right);
        n.height = 1 + if lh >= rh { lh } else { rh };
        let nh = n.height;
        let sh = Self::sub_height(&rt.right);
        rt.left = Some(n);
        rt.height = 1 + if nh >= sh { nh } else { sh };
        proof {
            let l0 = Node::<V>::optional_as_map(n0.left);
            let m0 = Node::<V>::optional_as_map(rt0.left);
            let r0 = Node::<V>::optional_as_map(rt0.right);
            assert(rt0.as_map().dom().contains(rt0.key));
            assert(Node::<V>::optional_as_map(n0.right).dom().contains(rt0.key));
            assert(n0.key < rt0.key);
            assert forall|k: i64| m0.dom().contains(k) implies n0.key < k && k < rt0.key by {
                assert(rt0.as_map().dom().contains(k));
                assert(Node::<V>::optional_as_map(n0.right).dom().contains(k));
            };
            assert forall|k: i64| r0.dom().contains(k) implies n0.key < k && rt0.key < k by {
                assert(rt0.as_map().dom().contains(k));
                assert(Node::<V>::optional_as_map(n0.right).dom().contains(k));
            };
            assert(rt.left.unwrap().as_map() =~= l0.union_prefer_right(m0).insert(
                n0.key,
                n0.value,
            ));
            lemma_rotation_map(l0, m0, r0, n0.key, n0.value, rt0.key, rt0.value);
            assert(Node::<V>::optional_as_map(rt.left) == rt.left.unwrap().as_map());
            assert(Node::<V>::optional_as_map(n0.right) == rt0.as_map());
            assert(Node::<V>::optional_as_map(Some(rt)) =~= n0.as_map());
            assert(rt0.bst_wf());
            assert(rt.left.unwrap().bst_wf());
            assert(rt.bst_wf());
            assert(rt.left.unwrap().heights_wf());
            assert(Node::<V>::opt_height(rt.left) == rt.left.unwrap().height);
            assert(rt.heights_wf());
            assert(Node::<V>::count(rt.left) == 1 + Node::<V>::count(n0.left) + Node::<V>::count(
                rt0.left,
            ));
        }
        rt
    }

    /// Rotates the given node to the right, promoting its left child.
    /// The subtrees keep their contents; the two reshaped nodes get
    /// recomputed heights.
    #[verifier::rlimit(80)]
    fn rotate_right(n: Box<Node<V>>) -> (r: Box<Node<V>>)
        requires
            n.left is Some,
            Node::<V>::optional_bst_wf(n.left),
            Node::<V>::optional_bst_wf(n.right),
            Node::<V>::optional_heights_wf(n.left),
            Node::<V>::optional_heights_wf(n.right),
            forall|elem| Node::<V>::optional_as_map(n.left).dom().contains(elem) ==> elem < n.key,
            forall|elem| Node::<V>::optional_as_map(n.right).dom().contains(elem) ==> elem > n.key,
            Node::<V>::count(Some(n)) <= usize::MAX,
        ensures
            r.key == n.left.unwrap().key,
            r.left == n.left.unwrap().left,
            r.right is Some,
            r.right.unwrap().key == n.key,
            r.right.unwrap().right == n.right,
            r.right.unwrap().left == n.left.unwrap().right,
            r.bst_wf(),
            r.heights_wf(),
            Node::<V>::optional_as_map(Some(r)) =~= n.as_map(),
            Node::<V>::count(Some(r)) == Node::<V>::count(Some(n)),
    {
        let ghost n0 = n;
        let mut n = n;
        let mut lt: Box<Node<V>> = n.left.take().unwrap();
        let ghost lt0 = lt;
        proof {
            lemma_opt_height_le_count(n.right);
            lemma_opt_height_le_count(lt.left);
            lemma_opt_height_le_count(lt.right);
            assert(Node::<V>::count(Some(n0)) == 1 + Node::<V>::count(Some(lt0))
                + Node::<V>::count(n0.right));
            assert(Node::<V>::count(Some(lt0)) == 1 + Node::<V>::count(lt0.left)
                + Node::<V>::count(lt0.right));
        }
        n.left = lt.right.take();
        let lh = Self::sub_height(&n.left);
        let rh = Self::sub_height(&n.right);
        n.height = 1 + if lh >= rh { lh } else { rh };
        let nh = n.height;
        let sh = Self::sub_height(&lt.left);
        lt.right = Some(n);
        lt.height = 1 + if sh >= nh { sh } else { nh };
        proof {
            let a0 = Node::<V>::optional_as_map(lt0.left);
            let b0 = Node::<V>::optional_as_map(lt0.right);
            let r0 = Node::<V>::optional_as_map(n0.right);
            assert(lt0.as_map().dom().contains(lt0.key));
            assert(Node::<V>::optional_as_map(n0.left).dom().contains(lt0.key));
            assert(lt0.key < n0.key);
            assert forall|k: i64| a0.dom().contains(k) implies k < lt0.key && k < n0.key by {
                assert(lt0.as_map().dom().contains(k));
                assert(Node::<V>::optional_as_map(n0.left).dom().contains(k));
            };
            assert forall|k: i64| b0.dom().contains(k) implies lt0.key < k && k < n0.key by {
                assert(lt0.as_map().dom().contains(k));
                assert(Node::<V>::optional_as_map(n0.left).dom().contains(k));
            };
            assert(lt.right.unwrap().as_map() =~= b0.union_prefer_right(r0).insert(
                n0.key,
                n0.value,
            ));
            lemma_rotation_map(a0, b0, r0, lt0.key, lt0.value, n0.key, n0.value);
            assert(Node::<V>::optional_as_map(lt.right) == lt.right.unwrap().as_map());
            assert(Node::<V>::optional_as_map(n0.left) == lt0.as_map());
            assert(Node::<V>::optional_as_map(Some(lt)) =~= n0.as_map());
            assert(lt0.bst_wf());
            assert(lt.right.unwrap().bst_wf());
            assert(lt.bst_wf());
            assert(lt.right.unwrap().heights_wf());
            assert(Node::<V>::opt_height(lt.right) == lt.right.unwrap().height);
            assert(lt.heights_wf());
            assert(Node::<V>::count(lt.right) == 1 + Node::<V>::count(lt0.right)
                + Node::<V>::count(n0.right));
        }
        lt
    }

    /// Restores the AVL condition at the given node if necessary and adjusts
    /// its stored height. The initial imbalance must not exceed two levels,
    /// which always holds after a single insertion or removal below one of
    /// the children. The resulting subtree keeps the same contents; its
    /// height is the recomputed height, except that a rotation may shrink it
    /// by one level.
    #[verifier::rlimit(100)]
    #[verifier::spinoff_prover]
    fn rebalance(n: Box<Node<V>>) -> (r: Box<Node<V>>)
        requires
            Node::<V>::optional_bst_wf(n.left),
            Node::<V>::optional_bst_wf(n.right),
            Node::<V>::optional_heights_wf(n.left),
            Node::<V>::optional_heights_wf(n.right),
            Node::<V>::optional_balanced(n.left),
            Node::<V>::optional_balanced(n.right),
            forall|elem| Node::<V>::optional_as_map(n.left).dom().contains(elem) ==> elem < n.key,
            forall|elem| Node::<V>::optional_as_map(n.right).dom().contains(elem) ==> elem > n.key,
            Node::<V>::opt_height(n.left) <= Node::<V>::opt_height(n.right) + 2,
            Node::<V>::opt_height(n.right) <= Node::<V>::opt_height(n.left) + 2,
            Node::<V>::count(Some(n)) <= usize::MAX,
        ensures
            r.bst_wf(),
            r.heights_wf(),
            r.balanced(),
            Node::<V>::optional_as_map(Some(r)) =~= n.as_map(),
            Node::<V>::count(Some(r)) == Node::<V>::count(Some(n)),
            ({
                let big = 1 + nat_max(
                    Node::<V>::opt_height(n.left),
                    Node::<V>::opt_height(n.right),
                );
                &&& Node::<V>::opt_height(Some(r)) <= big
                &&& Node::<V>::opt_height(Some(r)) + 1 >= big
                &&& (Node::<V>::opt_height(n.left) <= Node::<V>::opt_height(n.right) + 1
                    && Node::<V>::opt_height(n.right) <= Node::<V>::opt_height(n.left) + 1
                    ==> Node::<V>::opt_height(Some(r)) == big)
            }),
    {
        let ghost n0 = n;
        proof {
            lemma_opt_height_le_count(n0.left);
            lemma_opt_height_le_count(n0.right);
            assert(Node::<V>::count(Some(n0)) == 1 + Node::<V>::count(n0.left) + Node::<V>::count(
                n0.right,
            ));
        }
        let lh = Self::sub_height(&n.left);
        let rh = Self::sub_height(&n.right);
        if lh > rh + 1 {
            // Rebalance to the right: the left subtree is two levels taller.
            let mut n = n;
            let mut l = n.left.take().unwrap();
            let ghost l0 = l;
            let ghost a = Node::<V>::opt_height(l0.left);
            let ghost b = Node::<V>::opt_height(l0.right);
            let ghost c = Node::<V>::opt_height(n0.right);
            proof {
                assert(Node::<V>::count(n0.left) == Node::<V>::count(Some(l0)));
                assert(l0.bst_wf() && l0.heights_wf() && l0.balanced());
                assert(lh == 1 + nat_max(a, b));
                assert(nat_max(a, b) == c + 1);
            }
            if Self::sub_height(&l.right) > Self::sub_height(&l.left) {
                // The left child leans right: resolve the zig-zag shape first.
                proof {
                    let lr0 = l0.right.unwrap();
                    assert(b == 1 + nat_max(
                        Node::<V>::opt_height(lr0.left),
                        Node::<V>::opt_height(lr0.right),
                    ));
                    assert(lr0.bst_wf() && lr0.heights_wf() && lr0.balanced());
                }
                l = Self::rotate_left(l);
                proof {
                    let lr0 = l0.right.unwrap();
                    let p = Node::<V>::opt_height(lr0.left);
                    let q = Node::<V>::opt_height(lr0.right);
                    assert(b == c + 1 && a == c);
                    assert(l.left.unwrap().left == l0.left);
                    assert(l.left.unwrap().right == lr0.left);
                    assert(Node::<V>::opt_height(l.left) == 1 + nat_max(a, p));
                    assert(l.left.unwrap().balanced());
                    assert(Node::<V>::opt_height(l.right) == q);
                    assert(Node::<V>::optional_as_map(Some(l)) == l0.as_map());
                    assert(Node::<V>::optional_as_map(Some(l)) == Node::<V>::optional_as_map(
                        n0.left,
                    ));
                    assert(Node::<V>::opt_height(Some(l)) == 1 + nat_max(1 + nat_max(a, p), q));
                }
            }
            n.left = Some(l);
            let ghost l1 = l;
            let r = Self::rotate_right(n);
            proof {
                assert(r.left == l1.left);
                assert(r.right.unwrap().left == l1.right);
                assert(r.right.unwrap().right == n0.right);
                assert(Node::<V>::opt_height(r.right) == 1 + nat_max(
                    Node::<V>::opt_height(l1.right),
                    c,
                ));
                assert(r.right.unwrap().balanced());
                assert(r.balanced());
                assert(Node::<V>::opt_height(Some(r)) == 1 + nat_max(
                    Node::<V>::opt_height(l1.left),
                    Node::<V>::opt_height(r.right),
                ));
                assert(Node::<V>::optional_as_map(Some(r)) =~= n0.as_map());
            }
            r
        } else if rh > lh + 1 {
            // Rebalance to the left: the right subtree is two levels taller.
            let mut n = n;
            let mut rt = n.right.take().unwrap();
            let ghost rt0 = rt;
            let ghost a = Node::<V>::opt_height(rt0.right);
            let ghost b = Node::<V>::opt_height(rt0.left);
            let ghost c = Node::<V>::opt_height(n0.left);
            proof {
                assert(Node::<V>::count(n0.right) == Node::<V>::count(Some(rt0)));
                assert(rt0.bst_wf() && rt0.heights_wf() && rt0.balanced());
                assert(rh == 1 + nat_max(b, a));
                assert(nat_max(b, a) == c + 1);
            }
            if Self::sub_height(&rt.left) > Self::sub_height(&rt.right) {
                // The right child leans left: resolve the zig-zag shape first.
                proof {
                    let rl0 = rt0.left.unwrap();
                    assert(b == 1 + nat_max(
                        Node::<V>::opt_height(rl0.left),
                        Node::<V>::opt_height(rl0.right),
                    ));
                    assert(rl0.bst_wf() && rl0.heights_wf() && rl0.balanced());
                }
                rt = Self::rotate_right(rt);
                proof {
                    let rl0 = rt0.left.unwrap();
                    let p = Node::<V>::opt_height(rl0.left);
                    let q = Node::<V>::opt_height(rl0.right);
                    assert(b == c + 1 && a == c);
                    assert(rt.right.unwrap().right == rt0.right);
                    assert(rt.right.unwrap().left == rl0.right);
                    assert(Node::<V>::opt_height(rt.right) == 1 + nat_max(q, a));
                    assert(rt.right.unwrap().balanced());
                    assert(Node::<V>::opt_height(rt.left) == p);
                    assert(Node::<V>::optional_as_map(Some(rt)) == rt0.as_map());
                    assert(Node::<V>::optional_as_map(Some(rt)) == Node::<V>::optional_as_map(
                        n0.right,
                    ));
                    assert(Node::<V>::opt_height(Some(rt)) == 1 + nat_max(p, 1 + nat_max(q, a)));
                }
            }
            n.right = Some(rt);
            let ghost rt1 = rt;
            let r = Self::rotate_left(n);
            proof {
                assert(r.right == rt1.right);
                assert(r.left.unwrap().right == rt1.left);
                assert(r.left.unwrap().left == n0.left);
                assert(Node::<V>::opt_height(r.left) == 1 + nat_max(
                    c,
                    Node::<V>::opt_height(rt1.left),
                ));
                assert(r.left.unwrap().balanced());
                assert(r.balanced());
                assert(Node::<V>::opt_height(Some(r)) == 1 + nat_max(
                    Node::<V>::opt_height(r.left),
                    Node::<V>::opt_height(rt1.right),
                ));
                assert(Node::<V>::optional_as_map(Some(r)) =~= n0.as_map());
            }
            r
        } else {
            // Already balanced: only the stored height needs recomputing.
            let mut n = n;
            n.height = 1 + if lh >= rh { lh } else { rh };
            proof {
                assert(n.bst_wf());
                assert(n.heights_wf());
                assert(n.balanced());
                assert(Node::<V>::optional_as_map(Some(n)) =~= n0.as_map());
            }
            n
        }
    }

    /// Standard iterative-descent lookup, written as a recursion over the
    /// owned subtrees.
    pub(crate) fn get_from_optional<'a>(node: &'a Option<Box<Node<V>>>, key: i64) -> (r: Option<
        &'a V,
    >)
        requires
            Node::<V>::optional_bst_wf(*node),
        ensures
            r == (if Node::<V>::optional_as_map(*node).dom().contains(key) {
                Some(&Node::<V>::optional_as_map(*node)[key])
            } else {
                None::<&'a V>
            }),
        decreases *node,
    {
        match node {
            None => None,
            Some(n) => {
                if key == n.key {
                    Some(&n.value)
                } else if key < n.key {
                    proof {
                        assert(!Node::<V>::optional_as_map(n.right).dom().contains(key));
                    }
                    Self::get_from_optional(&n.left, key)
                } else {
                    proof {
                        assert(!Node::<V>::optional_as_map(n.left).dom().contains(key));
                    }
                    Self::get_from_optional(&n.right, key)
                }
            }
        }
    }

    /// Inserts the pair into the subtree. If the key is already present only
    /// the value changes and the old one is returned; otherwise a new leaf is
    /// spliced in at the point where the descent fell off the tree, and every
    /// node along the way back is rebalanced. The subtree grows by at most
    /// one level, and only when the key was absent.
    #[verifier::rlimit(80)]
    pub(crate) fn insert_into_optional(node: &mut Option<Box<Node<V>>>, key: i64, value: V) -> (prev: Option<V>)
        requires
            Node::<V>::optional_bst_wf(*old(node)),
            Node::<V>::optional_heights_wf(*old(node)),
            Node::<V>::optional_balanced(*old(node)),
            Node::<V>::count(*old(node)) < usize::MAX,
        ensures
            Node::<V>::optional_bst_wf(*final(node)),
            Node::<V>::optional_heights_wf(*final(node)),
            Node::<V>::optional_balanced(*final(node)),
            Node::<V>::optional_as_map(*final(node)) =~= Node::<V>::optional_as_map(
                *old(node),
            ).insert(key, value),
            prev == (if Node::<V>::optional_as_map(*old(node)).dom().contains(key) {
                Some(Node::<V>::optional_as_map(*old(node))[key])
            } else {
                None::<V>
            }),
            prev is Some ==> Node::<V>::count(*final(node)) == Node::<V>::count(*old(node))
                && Node::<V>::opt_height(*final(node)) == Node::<V>::opt_height(*old(node)),
            prev is None ==> Node::<V>::count(*final(node)) == Node::<V>::count(*old(node)) + 1 && (
            Node::<V>::opt_height(*final(node)) == Node::<V>::opt_height(*old(node))
                || Node::<V>::opt_height(*final(node)) == Node::<V>::opt_height(*old(node)) + 1),
        decreases *old(node),
    {
        match node.take() {
            None => {
                *node = Some(
                    Box::new(Node::<V> { key, value, height: 1, left: None, right: None }),
                );
                None
            }
            Some(boxed) => {
                let ghost b0 = boxed;
                if key == boxed.key {
                    let n = *boxed;
                    let Node { key: k0, value: v0, height, left, right } = n;
                    *node = Some(Box::new(Node::<V> { key: k0, value, height, left, right }));
                    proof {
                        assert(!Node::<V>::optional_as_map(b0.left).dom().contains(key));
                        assert(!Node::<V>::optional_as_map(b0.right).dom().contains(key));
                        assert(node.unwrap().bst_wf());
                        assert(node.unwrap().heights_wf());
                        assert(node.unwrap().balanced());
                        assert(Node::<V>::optional_as_map(*node) =~= Node::<V>::optional_as_map(
                            Some(b0),
                        ).insert(key, value));
                        assert(Node::<V>::count(*node) == Node::<V>::count(Some(b0)));
                        assert(Node::<V>::opt_height(*node) == Node::<V>::opt_height(Some(b0)));
                    }
                    Some(v0)
                } else if key < boxed.key {
                    let mut boxed = boxed;
                    proof {
                        assert(Node::<V>::count(Some(b0)) == 1 + Node::<V>::count(b0.left)
                            + Node::<V>::count(b0.right));
                        assert(!Node::<V>::optional_as_map(b0.right).dom().contains(key));
                    }
                    let prev = Self::insert_into_optional(&mut boxed.left, key, value);
                    let r = Self::rebalance(boxed);
                    proof {
                        assert(Node::<V>::optional_as_map(Some(r)) =~= Node::<V>::optional_as_map(
                            Some(b0),
                        ).insert(key, value));
                    }
                    *node = Some(r);
                    prev
                } else {
                    let mut boxed = boxed;
                    proof {
                        assert(Node::<V>::count(Some(b0)) == 1 + Node::<V>::count(b0.left)
                            + Node::<V>::count(b0.right));
                        assert(!Node::<V>::optional_as_map(b0.left).dom().contains(key));
                    }
                    let prev = Self::insert_into_optional(&mut boxed.right, key, value);
                    let r = Self::rebalance(boxed);
                    proof {
                        assert(Node::<V>::optional_as_map(Some(r)) =~= Node::<V>::optional_as_map(
                            Some(b0),
                        ).insert(key, value));
                    }
                    *node = Some(r);
                    prev
                }
            }
        }
    }

    /// Detaches the minimum of the subtree: walks left children to the end,
    /// splices that node's right subtree into its place, and rebalances the
    /// path on the way back. The subtree loses exactly one node and shrinks
    /// by at most one level.
    #[verifier::rlimit(80)]
    pub(crate) fn remove_leftmost(node: &mut Option<Box<Node<V>>>) -> (popped: (i64, V))
        requires
            (*old(node)) is Some,
            Node::<V>::optional_bst_wf(*old(node)),
            Node::<V>::optional_heights_wf(*old(node)),
            Node::<V>::optional_balanced(*old(node)),
            Node::<V>::count(*old(node)) <= usize::MAX,
        ensures
            Node::<V>::optional_bst_wf(*final(node)),
            Node::<V>::optional_heights_wf(*final(node)),
            Node::<V>::optional_balanced(*final(node)),
            Node::<V>::optional_as_map(*final(node)) =~= Node::<V>::optional_as_map(
                *old(node),
            ).remove(popped.0),
            Node::<V>::optional_as_map(*old(node)).dom().contains(popped.0),
            Node::<V>::optional_as_map(*old(node))[popped.0] == popped.1,
            forall|elem|
                Node::<V>::optional_as_map(*old(node)).dom().contains(elem) ==> popped.0 <= elem,
            Node::<V>::count(*final(node)) + 1 == Node::<V>::count(*old(node)),
            Node::<V>::opt_height(*final(node)) == Node::<V>::opt_height(*old(node))
                || Node::<V>::opt_height(*final(node)) + 1 == Node::<V>::opt_height(*old(node)),
        decreases *old(node),
    {
        let ghost b0 = old(node).unwrap();
        let boxed = node.take().unwrap();
        proof {
            assert(Node::<V>::count(Some(b0)) == 1 + Node::<V>::count(b0.left) + Node::<V>::count(
                b0.right,
            ));
        }
        if boxed.left.is_some() {
            let mut boxed = boxed;
            let popped = Self::remove_leftmost(&mut boxed.left);
            let r = Self::rebalance(boxed);
            proof {
                assert(!Node::<V>::optional_as_map(b0.right).dom().contains(popped.0));
                assert(Node::<V>::optional_as_map(Some(r)) =~= Node::<V>::optional_as_map(
                    Some(b0),
                ).remove(popped.0));
                assert(Node::<V>::optional_as_map(Some(b0)).dom().contains(popped.0));
                assert forall|elem|
                    Node::<V>::optional_as_map(Some(b0)).dom().contains(elem) implies popped.0
                    <= elem by {
                    if Node::<V>::optional_as_map(b0.left).dom().contains(elem) {
                    } else if Node::<V>::optional_as_map(b0.right).dom().contains(elem) {
                        assert(Node::<V>::optional_as_map(b0.left).dom().contains(popped.0));
                        assert(popped.0 < b0.key);
                    } else {
                        assert(elem == b0.key);
                        assert(Node::<V>::optional_as_map(b0.left).dom().contains(popped.0));
                    }
                };
            }
            *node = Some(r);
            popped
        } else {
            // The minimum has no left child: its right subtree takes its place.
            let n = *boxed;
            let Node { key: k0, value: v0, height: _, left: _, right } = n;
            *node = right;
            proof {
                assert(Node::<V>::optional_as_map(b0.left) =~= Map::empty());
                assert(!Node::<V>::optional_as_map(b0.right).dom().contains(k0));
                assert(Node::<V>::optional_as_map(*node) =~= Node::<V>::optional_as_map(
                    Some(b0),
                ).remove(k0));
            }
            (k0, v0)
        }
    }

    /// Removes the key from the subtree if present, returning the stored
    /// pair. A node with a right subtree is replaced by its in-order
    /// successor, the minimum of that subtree; one without is replaced by its
    /// left subtree. Every node on the path back is rebalanced.
    #[verifier::rlimit(100)]
    pub(crate) fn remove_from_optional(node: &mut Option<Box<Node<V>>>, key: i64) -> (removed:
        Option<(i64, V)>)
        requires
            Node::<V>::optional_bst_wf(*old(node)),
            Node::<V>::optional_heights_wf(*old(node)),
            Node::<V>::optional_balanced(*old(node)),
            Node::<V>::count(*old(node)) <= usize::MAX,
        ensures
            Node::<V>::optional_bst_wf(*final(node)),
            Node::<V>::optional_heights_wf(*final(node)),
            Node::<V>::optional_balanced(*final(node)),
            Node::<V>::optional_as_map(*final(node)) =~= Node::<V>::optional_as_map(
                *old(node),
            ).remove(key),
            removed == (if Node::<V>::optional_as_map(*old(node)).dom().contains(key) {
                Some((key, Node::<V>::optional_as_map(*old(node))[key]))
            } else {
                None::<(i64, V)>
            }),
            removed is Some ==> Node::<V>::count(*final(node)) + 1 == Node::<V>::count(*old(node)),
            removed is None ==> Node::<V>::count(*final(node)) == Node::<V>::count(*old(node)),
            Node::<V>::opt_height(*final(node)) == Node::<V>::opt_height(*old(node))
                || Node::<V>::opt_height(*final(node)) + 1 == Node::<V>::opt_height(*old(node)),
        decreases *old(node),
    {
        let ghost b0_opt = *old(node);
        match node.take() {
            None => None,
            Some(boxed) => {
                let ghost b0 = boxed;
                proof {
                    assert(Node::<V>::count(Some(b0)) == 1 + Node::<V>::count(b0.left)
                        + Node::<V>::count(b0.right));
                }
                if key == boxed.key {
                    let n = *boxed;
                    let Node { key: k0, value: v0, height, left, right } = n;
                    proof {
                        assert(!Node::<V>::optional_as_map(b0.left).dom().contains(k0));
                        assert(!Node::<V>::optional_as_map(b0.right).dom().contains(k0));
                    }
                    if right.is_some() {
                        // Replace this node by the minimum of its right subtree.
                        let mut right = right;
                        let popped = Self::remove_leftmost(&mut right);
                        let newn = Box::new(
                            Node::<V> { key: popped.0, value: popped.1, height, left, right },
                        );
                        proof {
                            assert(Node::<V>::optional_as_map(b0.right).dom().contains(popped.0));
                            assert(popped.0 > k0);
                            assert forall|elem|
                                Node::<V>::optional_as_map(newn.right).dom().contains(
                                    elem,
                                ) implies elem > popped.0 by {
                                assert(Node::<V>::optional_as_map(b0.right).dom().contains(elem));
                            };
                            assert forall|elem|
                                Node::<V>::optional_as_map(newn.left).dom().contains(
                                    elem,
                                ) implies elem < popped.0 by {
                                assert(elem < k0);
                            };
                        }
                        let r = Self::rebalance(newn);
                        proof {
                            assert(Node::<V>::optional_as_map(Some(r)) =~= Node::<
                                V,
                            >::optional_as_map(Some(b0)).remove(k0));
                        }
                        *node = Some(r);
                        Some((k0, v0))
                    } else {
                        // No right subtree: the left subtree takes this
                        // node's place.
                        *node = left;
                        proof {
                            assert(Node::<V>::optional_as_map(b0.right) =~= Map::empty());
                            assert(Node::<V>::optional_as_map(*node) =~= Node::<
                                V,
                            >::optional_as_map(Some(b0)).remove(k0));
                        }
                        Some((k0, v0))
                    }
                } else if key < boxed.key {
                    let mut boxed = boxed;
                    proof {
                        assert(!Node::<V>::optional_as_map(b0.right).dom().contains(key));
                    }
                    let removed = Self::remove_from_optional(&mut boxed.left, key);
                    let r = Self::rebalance(boxed);
                    proof {
                        assert(Node::<V>::optional_as_map(Some(r)) =~= Node::<V>::optional_as_map(
                            Some(b0),
                        ).remove(key));
                    }
                    *node = Some(r);
                    removed
                } else {
                    let mut boxed = boxed;
                    proof {
                        assert(!Node::<V>::optional_as_map(b0.left).dom().contains(key));
                    }
                    let removed = Self::remove_from_optional(&mut boxed.right, key);
                    let r = Self::rebalance(boxed);
                    proof {
                        assert(Node::<V>::optional_as_map(Some(r)) =~= Node::<V>::optional_as_map(
                            Some(b0),
                        ).remove(key));
                    }
                    *node = Some(r);
                    removed
                }
            }
        }
    }
}

} // verus!
