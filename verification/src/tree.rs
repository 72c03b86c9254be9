use vstd::prelude::*;

use crate::node::lemma_frag_rest;
use crate::node::lemma_has_unique;
use crate::node::lemma_in_order_sorted;
use crate::node::lemma_wf_balanced;
use crate::node::lemma_wf_within_capacity;
use crate::node::strictly_sorted;
use crate::node::BTreeNode;
use crate::node::MAX_NODE_SIZE;

verus! {

/// The tree itself: a thin owner of the root node.  The root is the only
/// node allowed to hold fewer keys than the others, and it is replaced by
/// a fresh one-key root whenever an insertion makes it overflow.
pub struct BTree {
    pub root: BTreeNode,
}

impl BTree {
    /// The whole tree is well formed when its root is.
    pub open spec fn wf(self) -> bool {
        self.root.wf()
    }
}

impl View for BTree {
    type V = Map<u64, u64>;

    /// The tree abstractly is the finite map of its stored pairs.
    open spec fn view(&self) -> Map<u64, u64> {
        Map::new(|k: u64| self.root.has_key(k), |k: u64| choose|v: u64| self.root.has(k, v))
    }
}

/// In a well-formed tree whose pairs are those of `t0` plus one fresh
/// pair, the map of stored pairs is the old map with that pair inserted.
proof fn lemma_view_insert(t0: BTree, t1: BTree, key: u64, value: u64)
    requires
        t0.wf(),
        t1.wf(),
        !t0.root.has_key(key),
        forall|k: u64, v: u64|
            #![trigger t1.root.has(k, v)]
            #![trigger t0.root.has(k, v)]
            t1.root.has(k, v) <==> t0.root.has(k, v) || (k == key && v == value),
    ensures
        t1@ == t0@.insert(key, value),
{
    assert(t1.root.has(key, value));
    assert forall|k: u64| t1@.dom().contains(k) <==> t0@.insert(key, value).dom().contains(k) by {
        if k == key {
            assert(t1.root.has_key(k));
        } else {
            if t1.root.has_key(k) {
                let v = choose|v: u64| t1.root.has(k, v);
                assert(t0.root.has(k, v));
            }
            if t0.root.has_key(k) {
                let v = choose|v: u64| t0.root.has(k, v);
                assert(t1.root.has(k, v));
            }
        }
    }
    assert forall|k: u64| #[trigger] t1@.dom().contains(k) implies t1@[k] == t0@.insert(
        key,
        value,
    )[k] by {
        let v1 = choose|v: u64| t1.root.has(k, v);
        assert(t1.root.has(k, v1) && t1@[k] == v1);
        if k == key {
            assert(v1 == value);
        } else {
            assert(t0.root.has(k, v1));
            let v0 = choose|v: u64| t0.root.has(k, v);
            assert(t0.root.has(k, v0) && t0@[k] == v0);
            lemma_has_unique(t0.root, k, v0, v1);
        }
    }
    assert(t1@ =~= t0@.insert(key, value));
}

impl BTree {
    /// An empty tree whose nodes will all share the given capacity.
    pub fn new(node_size: usize) -> (r: BTree)
        requires
            2 <= node_size,
            node_size <= MAX_NODE_SIZE,
        ensures
            r.wf(),
            r.root.node_size == node_size,
            r.root.keys@ == Seq::<u64>::empty(),
            r.root.values@ == Seq::<u64>::empty(),
            r.root.children@ == Seq::<BTreeNode>::empty(),
            r@ == Map::<u64, u64>::empty(),
    {
        let r = BTree { root: BTreeNode::new(node_size) };
        proof {
            assert(r@ =~= Map::<u64, u64>::empty());
        }
        r
    }

    /// Point lookup, delegated to the root: the result is exactly the
    /// binding the map of stored pairs gives the key — `None` when and
    /// only when the key is absent.
    pub fn lookup(&self, key: &u64) -> (r: Option<u64>)
        requires
            self.wf(),
        ensures
            r == if self@.contains_key(*key) {
                Some(self@[*key])
            } else {
                None::<u64>
            },
    {
        let r = self.root.lookup(key);
        proof {
            if let Some(v) = r {
                assert(self.root.has_key(*key));
                let v2 = choose|v2: u64| self.root.has(*key, v2);
                lemma_has_unique(self.root, *key, v, v2);
                assert(self@[*key] == v);
            } else {
                assert(!self@.contains_key(*key));
            }
        }
        r
    }

    /// Insert a key not yet present.  If the root overflows, the tree
    /// grows one level: the old root and the shortened overflow fragment
    /// become the two children of a brand-new root holding the single
    /// promoted pair.  Abstractly the map of stored pairs gains exactly
    /// the one new binding.
    pub fn insert(&mut self, key: u64, value: u64)
        requires
            old(self).wf(),
            !old(self)@.contains_key(key),
        ensures
            final(self).wf(),
            final(self).root.node_size == old(self).root.node_size,
            final(self)@ == old(self)@.insert(key, value),
            // The tree grows at most one level, and only by replacing an
            // overflowing full root with a fresh root that holds exactly
            // the one promoted pair and the two halves as its children.
            final(self).root.height() == old(self).root.height() || final(self).root.height()
                == old(self).root.height() + 1,
            final(self).root.height() == old(self).root.height() + 1 ==> {
                &&& old(self).root.keys@.len() == old(self).root.node_size
                &&& final(self).root.keys@.len() == 1
                &&& final(self).root.values@.len() == 1
                &&& final(self).root.children@.len() == 2
            },
    {
        let ghost o = *old(self);
        proof {
            if o.root.has_key(key) {
                assert(o@.contains_key(key));
            }
        }
        let overflow = self.root.insert_recursive(key, value);
        match overflow {
            None => {
                proof {
                    lemma_view_insert(o, *self, key, value);
                }
            },
            Some(mut overflow_node) => {
                let ghost frag0 = overflow_node;
                let overflow_key = overflow_node.keys.remove(0);
                let overflow_value = overflow_node.values.remove(0);
                proof {
                    lemma_frag_rest(frag0, overflow_node);
                }
                let ghost low = self.root;
                let ghost rest = overflow_node;
                let node_size = self.root.node_size;
                let mut newroot = BTreeNode::new(node_size);
                core::mem::swap(&mut self.root, &mut newroot);
                // `newroot` now holds the demoted old root; the tree's
                // root is the fresh empty node being filled in.
                self.root.children.push(newroot);
                self.root.keys.push(overflow_key);
                self.root.values.push(overflow_value);
                self.root.children.push(overflow_node);
                proof {
                    let fk = frag0.keys[0];
                    let fv = frag0.values[0];
                    let s = self.root;
                    assert(s.keys@ =~= seq![fk]);
                    assert(s.values@ =~= seq![fv]);
                    assert(s.children@ =~= seq![low, rest]);
                    assert(s.children[0] == low && s.children[1] == rest);

                    // The new root is well formed: its two children are
                    // settled, equal in height, and fenced by the single
                    // promoted key.
                    assert forall|j: int, k: u64, v: u64|
                        0 <= j < s.children.len() && #[trigger] s.children[j].has(k, v) implies {
                            &&& (j > 0 ==> s.keys[j - 1] < k)
                            &&& (j < s.keys.len() ==> k < s.keys[j])
                        } by {
                        if j == 0 {
                            assert(low.has(k, v));
                            assert(k < fk);
                        } else {
                            assert(rest.has(k, v));
                            assert(k > fk);
                        }
                    }
                    assert(s.wf());

                    // The new root stores the promoted pair, what stayed
                    // in the old root, and what moved to the new sibling:
                    // together, the old pairs plus the fresh one.
                    assert(frag0.has(fk, fv));
                    assert forall|k: u64, v: u64|
                        #![trigger s.has(k, v)]
                        #![trigger o.root.has(k, v)]
                        s.has(k, v) <==> o.root.has(k, v) || (k == key && v == value) by {
                        if s.has(k, v) {
                            if exists|j: int|
                                #![trigger s.keys[j]]
                                0 <= j < s.keys.len() && s.keys[j] == k && s.values[j] == v {
                                assert(k == fk && v == fv);
                                assert(frag0.has(k, v));
                            } else {
                                let c = choose|c: int|
                                    0 <= c < s.children.len() && (#[trigger] s.children[c]).has(
                                        k,
                                        v,
                                    );
                                assert(low.has(k, v) || rest.has(k, v));
                            }
                            assert(low.has(k, v) || frag0.has(k, v));
                        }
                        if o.root.has(k, v) || (k == key && v == value) {
                            assert(low.has(k, v) || frag0.has(k, v));
                            if low.has(k, v) {
                                assert(s.children[0].has(k, v));
                            } else {
                                if k == fk {
                                    assert(v == fv);
                                    assert(s.keys[0] == k && s.values[0] == v);
                                } else {
                                    assert(rest.has(k, v));
                                    assert(s.children[1].has(k, v));
                                }
                            }
                            assert(s.has(k, v));
                        }
                    }
                    lemma_view_insert(o, *self, key, value);
                }
            },
        }
    }

    /// In-order traversal of the whole tree: every stored key, in
    /// strictly ascending order.
    pub fn keys_in_order(&self) -> (r: Vec<u64>)
        requires
            self.wf(),
        ensures
            r@ == self.root.in_order_keys(),
            strictly_sorted(r@),
            forall|k: u64| #[trigger] r@.contains(k) <==> self@.contains_key(k),
    {
        proof {
            lemma_in_order_sorted(self.root);
        }
        self.root.keys_in_order()
    }
}

/// Round-trip law: after a fresh pair is inserted, looking its key up
/// yields its value, and every other key keeps exactly the binding it
/// had before — whatever sequence of insertions built the two maps.
pub proof fn lemma_round_trip(pre: BTree, post: BTree, key: u64, value: u64)
    requires
        !pre@.contains_key(key),
        post@ == pre@.insert(key, value),
    ensures
        post@.contains_key(key),
        post@[key] == value,
        forall|k: u64| k != key ==> (#[trigger] post@.contains_key(k) <==> pre@.contains_key(k)),
        forall|k: u64| k != key && pre@.contains_key(k) ==> post@[k] == pre@[k],
{
}

/// Insertion-order law: insertions of distinct keys commute on the
/// abstract map, so the map a tree denotes depends only on which pairs
/// were inserted, not on the order they arrived in.
pub proof fn lemma_insert_order_irrelevant(m: Map<u64, u64>, k1: u64, v1: u64, k2: u64, v2: u64)
    requires
        k1 != k2,
    ensures
        m.insert(k1, v1).insert(k2, v2) == m.insert(k2, v2).insert(k1, v1),
{
    assert(m.insert(k1, v1).insert(k2, v2) =~= m.insert(k2, v2).insert(k1, v1));
}

/// Absence law: inserting one pair never makes any other key appear, so
/// a key never inserted keeps reporting "not found".
pub proof fn lemma_absence(pre: BTree, post: BTree, key: u64, value: u64, other: u64)
    requires
        post@ == pre@.insert(key, value),
        other != key,
        !pre@.contains_key(other),
    ensures
        !post@.contains_key(other),
{
}

/// Idempotent-lookup law: lookup does not mutate the tree, and for one
/// tree and one key any two results that meet the lookup contract are
/// equal — so two lookups with no insertion in between agree.
pub proof fn lemma_lookup_idempotent(t: BTree, key: u64, r1: Option<u64>, r2: Option<u64>)
    requires
        t.wf(),
        match r1 {
            Some(v) => t.root.has(key, v),
            None => !t.root.has_key(key),
        },
        match r2 {
            Some(v) => t.root.has(key, v),
            None => !t.root.has_key(key),
        },
    ensures
        r1 == r2,
{
    match (r1, r2) {
        (Some(v1), Some(v2)) => {
            lemma_has_unique(t.root, key, v1, v2);
        },
        (Some(v1), None) => {
            assert(t.root.has_key(key));
        },
        (None, Some(v2)) => {
            assert(t.root.has_key(key));
        },
        (None, None) => {},
    }
}

/// Balance law at tree level: every leaf of a well-formed tree lies at
/// the same depth below the root.
pub proof fn lemma_balanced(t: BTree)
    requires
        t.wf(),
    ensures
        t.root.all_leaves_at(t.root.height()),
{
    lemma_wf_balanced(t.root);
}

/// Capacity law at tree level: after any insertion completes, every
/// node of the tree holds at most `node_size` keys.
pub proof fn lemma_within_capacity(t: BTree)
    requires
        t.wf(),
    ensures
        t.root.within_capacity(),
{
    lemma_wf_within_capacity(t.root);
}

} // verus!
