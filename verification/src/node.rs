use vstd::prelude::*;

verus! {

/// Upper bound on the configured node size, so that the index arithmetic
/// of the sign-encoded binary search always fits in an `i32`.
pub const MAX_NODE_SIZE: usize = 0x3FFF_FFFE;

/// A sequence of keys in strictly ascending order (hence all distinct).
pub open spec fn strictly_sorted(s: Seq<u64>) -> bool {
    forall|i: int, j: int| 0 <= i < j < s.len() ==> s[i] < s[j]
}

/// The insertion point of `k` in a key run: the index of the run's first
/// element that does not compare below `k`.  In a strictly sorted run
/// this is the slot at which `k` belongs.
pub open spec fn insertion_point(s: Seq<u64>, k: u64) -> int
    decreases s.len(),
{
    if s.len() == 0 {
        0
    } else if s[0] < k {
        1 + insertion_point(s.drop_first(), k)
    } else {
        0
    }
}

/// The insertion point is the unique index that splits the run into
/// elements below `k` and elements above it.
proof fn lemma_insertion_point_unique(s: Seq<u64>, k: u64, i: int)
    requires
        0 <= i <= s.len(),
        forall|j: int| 0 <= j < i ==> s[j] < k,
        forall|j: int| i <= j < s.len() ==> k < s[j],
    ensures
        insertion_point(s, k) == i,
    decreases s.len(),
{
    if s.len() == 0 {
    } else if s[0] < k {
        assert(i > 0) by {
            if i == 0 {
                assert(k < s[0]);
            }
        }
        let t = s.drop_first();
        assert forall|j: int| 0 <= j < i - 1 implies t[j] < k by {
            assert(t[j] == s[j + 1]);
        }
        assert forall|j: int| i - 1 <= j < t.len() implies k < t[j] by {
            assert(t[j] == s[j + 1]);
        }
        lemma_insertion_point_unique(t, k, i - 1);
    } else {
        assert(i == 0) by {
            if i > 0 {
                assert(s[0] < k);
            }
        }
    }
}

/// One B-tree node: an ordered run of distinct keys, one value per key,
/// and, when the node is internal, one more child than it has keys.
/// `node_size` is the capacity every node of a tree shares; a node holds
/// `node_size + 1` keys only transiently, right before it is split.
pub struct BTreeNode {
    pub node_size: usize,
    pub keys: Vec<u64>,
    pub children: Vec<BTreeNode>,
    pub values: Vec<u64>,
}

impl BTreeNode {
    /// Distance from this node down to its leaves: 0 for a leaf.  In a
    /// well-formed node every child has the same height, so the first
    /// child is representative.
    pub open spec fn height(self) -> nat
        decreases self,
    {
        if self.children.len() == 0 {
            0
        } else {
            1 + self.children[0].height()
        }
    }

    /// The pair `(k, v)` is stored somewhere in the subtree rooted here.
    pub open spec fn has(self, k: u64, v: u64) -> bool
        decreases self,
    {
        ||| (exists|j: int|
            #![trigger self.keys[j]]
            0 <= j < self.keys.len() && self.keys[j] == k && self.values[j] == v)
        ||| (exists|j: int|
            0 <= j < self.children.len() && (#[trigger] self.children[j]).has(k, v))
    }

    /// The key `k` is stored somewhere in the subtree rooted here.
    pub open spec fn has_key(self, k: u64) -> bool {
        exists|v: u64| self.has(k, v)
    }

    /// Every invariant of a settled node except the bound on how many
    /// keys it holds: the shape of a node right after an insertion, when
    /// it may transiently hold `node_size + 1` keys.
    pub open spec fn wf_except_capacity(self) -> bool
        decreases self, 0int,
    {
        &&& 2 <= self.node_size
        &&& self.node_size <= MAX_NODE_SIZE
        &&& self.values.len() == self.keys.len()
        &&& strictly_sorted(self.keys@)
        &&& self.children.len() == 0 || self.children.len() == self.keys.len() + 1
        &&& forall|j: int| #![trigger self.children[j]] 0 <= j < self.children.len() ==> {
            &&& self.children[j].wf()
            &&& self.children[j].node_size == self.node_size
            &&& self.children[j].height() == self.children[0].height()
        }
        &&& forall|j: int, k: u64, v: u64|
            0 <= j < self.children.len() && #[trigger] self.children[j].has(k, v) ==> {
                &&& (j > 0 ==> self.keys[j - 1] < k)
                &&& (j < self.keys.len() ==> k < self.keys[j])
            }
    }

    /// A settled, well-formed node: keys strictly sorted, values aligned
    /// with keys, children (if any) one more than the keys, each child
    /// well formed, of the same configured size and height, and keyed
    /// strictly between the keys that surround it.
    pub open spec fn wf(self) -> bool
        decreases self, 1int,
    {
        self.wf_except_capacity() && self.keys.len() <= self.node_size
    }

    /// A node that has just overflowed: every invariant holds except
    /// that it carries exactly one key too many, so it must be split.
    pub open spec fn overfull(self) -> bool {
        self.wf_except_capacity() && self.keys.len() == self.node_size + 1
    }

    /// The transient shape of an overflow fragment, as `split` returns
    /// it: the upper half of an overfull node.  Its first key/value pair
    /// is destined for promotion into the parent, so an internal fragment
    /// carries exactly as many children as keys — the missing leftmost
    /// child is the lower half, which keeps only keys below the fragment.
    /// Child `j` is fenced between `keys[j]` and `keys[j + 1]`.
    pub open spec fn frag_wf(self) -> bool {
        &&& 2 <= self.node_size
        &&& self.node_size <= MAX_NODE_SIZE
        &&& self.values.len() == self.keys.len()
        &&& 2 <= self.keys.len()
        &&& self.keys.len() <= self.node_size
        &&& strictly_sorted(self.keys@)
        &&& self.children.len() == 0 || self.children.len() == self.keys.len()
        &&& forall|j: int| #![trigger self.children[j]] 0 <= j < self.children.len() ==> {
            &&& self.children[j].wf()
            &&& self.children[j].node_size == self.node_size
            &&& self.children[j].height() == self.children[0].height()
        }
        &&& forall|j: int, k: u64, v: u64|
            0 <= j < self.children.len() && #[trigger] self.children[j].has(k, v) ==> {
                &&& self.keys[j] < k
                &&& (j + 1 < self.keys.len() ==> k < self.keys[j + 1])
            }
    }

    /// Every leaf of the subtree lies exactly `d` levels below this node.
    pub open spec fn all_leaves_at(self, d: nat) -> bool
        decreases self,
    {
        if self.children.len() == 0 {
            d == 0
        } else {
            forall|j: int| #![trigger self.children[j]] 0 <= j < self.children.len() ==> d > 0
                && self.children[j].all_leaves_at((d - 1) as nat)
        }
    }

    /// Every node of the subtree holds at most `node_size` keys.
    pub open spec fn within_capacity(self) -> bool
        decreases self,
    {
        &&& self.keys.len() <= self.node_size
        &&& forall|j: int|
            0 <= j < self.children.len() ==> (#[trigger] self.children[j]).within_capacity()
    }

    /// The keys of the subtree in symmetric order, starting at key slot
    /// `i`: the child before slot `i` (when the node is internal), then
    /// key `i`, then the rest — so `in_order_from(0)` is the whole
    /// subtree's key run.
    pub open spec fn in_order_from(self, i: int) -> Seq<u64>
        decreases self, self.keys.len() - i + 1,
    {
        if !(0 <= i <= self.keys.len()) {
            Seq::empty()
        } else {
            let child_part = if self.children.len() == self.keys.len() + 1 {
                self.children[i].in_order_keys()
            } else {
                Seq::empty()
            };
            if i == self.keys.len() {
                child_part
            } else {
                child_part + seq![self.keys[i]] + self.in_order_from(i + 1)
            }
        }
    }

    /// All keys of the subtree, in symmetric (in-order) order.
    pub open spec fn in_order_keys(self) -> Seq<u64>
        decreases self, self.keys.len() + 2,
    {
        self.in_order_from(0)
    }

    /// A fresh, empty leaf with the given configured node size.  Room for
    /// one extra key is reserved so a later insertion can overflow the
    /// node before splitting it back down.
    pub fn new(node_size: usize) -> (r: BTreeNode)
        requires
            node_size <= MAX_NODE_SIZE,
        ensures
            r.node_size == node_size,
            r.keys@ == Seq::<u64>::empty(),
            r.values@ == Seq::<u64>::empty(),
            r.children@ == Seq::<BTreeNode>::empty(),
            r.height() == 0,
            forall|k: u64, v: u64| !r.has(k, v),
            2 <= node_size ==> r.wf(),
    {
        BTreeNode {
            node_size,
            keys: Vec::<u64>::with_capacity(node_size + 1),
            children: Vec::<BTreeNode>::with_capacity(node_size + 1),
            values: Vec::<u64>::with_capacity(node_size + 1),
        }
    }

    /// Binary search over a strictly sorted key run.  For an absent key
    /// the result is the insertion point: the first index whose key is
    /// greater.  For a key present at index `j` the result is `-j - 1`,
    /// distinguishable from the other case by its sign.
    pub fn next_index(keys: &Vec<u64>, key: &u64) -> (r: i32)
        requires
            strictly_sorted(keys@),
            keys@.len() <= MAX_NODE_SIZE + 1,
        ensures
            r < 0 ==> 0 <= -(r + 1) < keys@.len() && keys@[-(r + 1) as int] == *key,
            r >= 0 ==> {
                &&& r <= keys@.len()
                &&& forall|j: int| 0 <= j < r ==> keys@[j] < *key
                &&& forall|j: int| r <= j < keys@.len() ==> *key < keys@[j]
            },
    {
        let mut low: i32 = 0;
        let mut high: i32 = keys.len() as i32;
        while low != high
            invariant
                strictly_sorted(keys@),
                keys@.len() <= MAX_NODE_SIZE + 1,
                0 <= low <= high <= keys@.len(),
                forall|j: int| 0 <= j < low ==> keys@[j] < *key,
                forall|j: int| high <= j < keys@.len() ==> *key < keys@[j],
            decreases high - low,
        {
            let mid: i32 = (low + high) / 2;
            if *key < keys[mid as usize] {
                high = mid;
            } else if *key > keys[mid as usize] {
                low = mid + 1;
            } else {
                return -mid - 1;
            }
        }
        low
    }

    /// The indices `p`, read from its last element down to its first,
    /// descend from this node to an occurrence of the key `k`: the last
    /// index selects a child at each level but the lowest, where it
    /// selects the matching key slot itself.
    pub open spec fn path_to(self, p: Seq<usize>, k: u64) -> bool
        decreases self,
    {
        if p.len() == 0 {
            false
        } else {
            let i = p.last() as int;
            if p.len() == 1 {
                0 <= i < self.keys.len() && self.keys[i] == k
            } else {
                0 <= i < self.children.len() && self.children[i].path_to(p.drop_last(), k)
            }
        }
    }

    /// The search path for a key, deepest index first: the position of
    /// the key in the node where it was found, then the child index taken
    /// at each level back up to this node.  The path is empty exactly
    /// when the key is absent from the subtree.
    pub fn lookup_path(&self, key: &u64) -> (r: Vec<usize>)
        requires
            self.wf(),
        ensures
            r@.len() > 0 <==> self.has_key(*key),
            r@.len() > 0 ==> self.path_to(r@, *key),
        decreases self.height(),
    {
        let i = Self::next_index(&self.keys, key);
        if i < 0 {
            let idx: usize = (-(i + 1)) as usize;
            let mut stack: Vec<usize> = Vec::new();
            stack.push(idx);
            proof {
                assert(self.path_to(stack@, *key));
                assert(self.has(*key, self.values[idx as int]));
            }
            stack
        } else if (i as usize) < self.children.len() {
            proof {
                lemma_descend_frames(*self, *key, i as int);
            }
            let mut stack = self.children[i as usize].lookup_path(key);
            if stack.len() > 0 {
                let ghost sub = stack@;
                stack.push(i as usize);
                proof {
                    assert(stack@.drop_last() =~= sub);
                    assert(self.path_to(stack@, *key));
                    let v = choose|v: u64| self.children[i as int].has(*key, v);
                    assert(self.has(*key, v));
                }
            } else {
                proof {
                    if self.has_key(*key) {
                        let v = choose|v: u64| self.has(*key, v);
                        assert(self.children[i as int].has(*key, v));
                    }
                }
            }
            stack
        } else {
            proof {
                assert(self.children.len() == 0);
                if self.has_key(*key) {
                    let v = choose|v: u64| self.has(*key, v);
                    assert(false);
                }
            }
            Vec::new()
        }
    }

    /// Point lookup: a top-down binary-search descent from this node.
    /// An exact match anywhere on the path is authoritative, because keys
    /// are unique tree-wide; at a leaf with no match the key is absent
    /// from the whole subtree.
    pub fn lookup(&self, key: &u64) -> (r: Option<u64>)
        requires
            self.wf(),
        ensures
            match r {
                Some(v) => self.has(*key, v),
                None => !self.has_key(*key),
            },
        decreases self.height(),
    {
        let i = Self::next_index(&self.keys, key);
        if i < 0 {
            let idx: usize = (-(i + 1)) as usize;
            proof {
                assert(self.has(*key, self.values[idx as int]));
            }
            Some(self.values[idx])
        } else if (i as usize) < self.children.len() {
            proof {
                lemma_descend_frames(*self, *key, i as int);
                assert(self.children[i as int].height() < self.height());
            }
            let r = self.children[i as usize].lookup(key);
            proof {
                if let Some(v) = r {
                    assert(self.has(*key, v));
                } else {
                    assert forall|v: u64| !self.has(*key, v) by {
                        if self.has(*key, v) {
                            assert(self.children[i as int].has(*key, v));
                        }
                    }
                }
            }
            r
        } else {
            proof {
                // An internal node has `keys.len() + 1` children, more
                // than any insertion point, so this branch means a leaf.
                assert(self.children.len() == 0);
                assert forall|v: u64| !self.has(*key, v) by {}
            }
            None
        }
    }

    /// Split an overfull node at `mid = keys.len() / 2`: the keys and
    /// values from `mid` up move into a new node, the overflow fragment,
    /// and when the node is internal the children to the right of child
    /// `mid` move with them.  What stays behind is a settled node whose
    /// keys all compare below the fragment's first key, the pair the
    /// caller will promote.
    pub fn split(&mut self) -> (r: BTreeNode)
        requires
            old(self).overfull(),
        ensures
            final(self).wf(),
            final(self).node_size == old(self).node_size,
            final(self).height() == old(self).height(),
            final(self).keys@ == old(self).keys@.subrange(0, old(self).keys@.len() as int / 2),
            final(self).values@ == old(self).values@.subrange(0, old(self).keys@.len() as int / 2),
            r.keys@ == old(self).keys@.subrange(
                old(self).keys@.len() as int / 2,
                old(self).keys@.len() as int,
            ),
            r.values@ == old(self).values@.subrange(
                old(self).keys@.len() as int / 2,
                old(self).keys@.len() as int,
            ),
            old(self).children@.len() == 0 ==> final(self).children@.len() == 0
                && r.children@.len() == 0,
            old(self).children@.len() > 0 ==> {
                &&& final(self).children@ == old(self).children@.subrange(
                    0,
                    old(self).keys@.len() as int / 2 + 1,
                )
                &&& r.children@ == old(self).children@.subrange(
                    old(self).keys@.len() as int / 2 + 1,
                    old(self).children@.len() as int,
                )
            },
            r.frag_wf(),
            r.node_size == old(self).node_size,
            r.height() == old(self).height(),
            forall|k: u64, v: u64|
                #![trigger final(self).has(k, v)]
                #![trigger r.has(k, v)]
                #![trigger old(self).has(k, v)]
                final(self).has(k, v) || r.has(k, v) <==> old(self).has(k, v),
            forall|k: u64, v: u64| #[trigger] final(self).has(k, v) ==> k < r.keys[0],
            forall|k: u64, v: u64| #[trigger] r.has(k, v) ==> k >= r.keys[0],
            forall|v: u64| #[trigger] r.has(r.keys[0], v) ==> v == r.values[0],
    {
        let ghost o = *old(self);
        let ghost len = o.keys.len() as int;
        let ghost m = len / 2;
        let mid: usize = self.keys.len() / 2;
        let upper_keys = self.keys.split_off(mid);
        let upper_values = self.values.split_off(mid);
        let upper_children = if self.children.len() > 0 {
            self.children.split_off(mid + 1)
        } else {
            Vec::<BTreeNode>::new()
        };
        let r = BTreeNode {
            node_size: self.node_size,
            keys: upper_keys,
            children: upper_children,
            values: upper_values,
        };
        proof {
            let s = *self;
            assert(1 <= m && len - m >= 2);
            assert(s.keys.len() == m && r.keys.len() == len - m);
            assert(forall|j: int| 0 <= j < m ==> s.keys[j] == o.keys[j] && s.values[j] == o.values[j]);
            assert(forall|j: int|
                0 <= j < len - m ==> r.keys[j] == o.keys[m + j] && r.values[j] == o.values[m + j]);
            if o.children.len() > 0 {
                assert(s.children.len() == m + 1 && r.children.len() == len - m);
                assert(forall|j: int| 0 <= j < m + 1 ==> s.children[j] == o.children[j]);
                assert(forall|j: int| 0 <= j < len - m ==> r.children[j] == o.children[m + 1 + j]);
            }

            // The halves keep their keys strictly sorted.
            assert forall|i: int, j: int| 0 <= i < j < s.keys.len() implies s.keys[i] < s.keys[j] by {
                assert(o.keys[i] < o.keys[j]);
            }
            assert forall|i: int, j: int| 0 <= i < j < r.keys.len() implies r.keys[i] < r.keys[j] by {
                assert(o.keys[m + i] < o.keys[m + j]);
            }

            // Heights are preserved on both sides.
            if o.children.len() > 0 {
                assert(s.children[0] == o.children[0]);
                assert(r.children[0] == o.children[m + 1]);
                assert(o.children[m + 1].height() == o.children[0].height());
            }
            assert(s.height() == o.height());
            assert(r.height() == o.height());

            // The lower half is a settled node.
            assert forall|j: int, k: u64, v: u64|
                0 <= j < s.children.len() && #[trigger] s.children[j].has(k, v) implies {
                    &&& (j > 0 ==> s.keys[j - 1] < k)
                    &&& (j < s.keys.len() ==> k < s.keys[j])
                } by {
                assert(o.children[j].has(k, v));
            }
            assert(s.wf());

            // The fragment has the shape of an overflow fragment.
            assert forall|j: int, k: u64, v: u64|
                0 <= j < r.children.len() && #[trigger] r.children[j].has(k, v) implies {
                    &&& r.keys[j] < k
                    &&& (j + 1 < r.keys.len() ==> k < r.keys[j + 1])
                } by {
                assert(o.children[m + 1 + j].has(k, v));
                assert(o.keys[m + j] < k);
            }
            assert(r.frag_wf());

            // No pair is lost or invented by the split.
            assert forall|k: u64, v: u64| o.has(k, v) implies s.has(k, v) || r.has(k, v) by {
                if exists|j: int|
                    #![trigger o.keys[j]]
                    0 <= j < o.keys.len() && o.keys[j] == k && o.values[j] == v {
                    let j = choose|j: int|
                        #![trigger o.keys[j]]
                        0 <= j < o.keys.len() && o.keys[j] == k && o.values[j] == v;
                    if j < m {
                        assert(s.keys[j] == k && s.values[j] == v);
                    } else {
                        assert(r.keys[j - m] == k && r.values[j - m] == v);
                    }
                } else {
                    let c = choose|c: int|
                        0 <= c < o.children.len() && (#[trigger] o.children[c]).has(k, v);
                    if c <= m {
                        assert(s.children[c].has(k, v));
                    } else {
                        assert(r.children[c - m - 1].has(k, v));
                    }
                }
            }
            assert forall|k: u64, v: u64| s.has(k, v) implies o.has(k, v) && k < r.keys[0] by {
                assert(r.keys[0] == o.keys[m]);
                if exists|j: int|
                    #![trigger s.keys[j]]
                    0 <= j < s.keys.len() && s.keys[j] == k && s.values[j] == v {
                    let j = choose|j: int|
                        #![trigger s.keys[j]]
                        0 <= j < s.keys.len() && s.keys[j] == k && s.values[j] == v;
                    assert(o.keys[j] == k && o.values[j] == v);
                    assert(o.keys[j] < o.keys[m]);
                } else {
                    let c = choose|c: int|
                        0 <= c < s.children.len() && (#[trigger] s.children[c]).has(k, v);
                    assert(o.children[c].has(k, v));
                    assert(c < o.keys.len() && k < o.keys[c]);
                    assert(o.keys[c] <= o.keys[m]);
                }
            }
            assert forall|k: u64, v: u64| r.has(k, v) implies o.has(k, v) && k >= r.keys[0] by {
                if exists|j: int|
                    #![trigger r.keys[j]]
                    0 <= j < r.keys.len() && r.keys[j] == k && r.values[j] == v {
                    let j = choose|j: int|
                        #![trigger r.keys[j]]
                        0 <= j < r.keys.len() && r.keys[j] == k && r.values[j] == v;
                    assert(o.keys[m + j] == k && o.values[m + j] == v);
                    assert(o.keys[m] <= o.keys[m + j]);
                } else {
                    let c = choose|c: int|
                        0 <= c < r.children.len() && (#[trigger] r.children[c]).has(k, v);
                    assert(o.children[m + 1 + c].has(k, v));
                    assert(o.keys[m + c] < k);
                    assert(o.keys[m] <= o.keys[m + c]);
                }
            }
            // A pair carrying the promoted key can only be the promoted
            // pair itself.
            assert forall|v: u64| #[trigger] r.has(r.keys[0], v) implies v == r.values[0] by {
                let k = r.keys[0];
                if exists|j: int|
                    #![trigger r.keys[j]]
                    0 <= j < r.keys.len() && r.keys[j] == k && r.values[j] == v {
                    let j = choose|j: int|
                        #![trigger r.keys[j]]
                        0 <= j < r.keys.len() && r.keys[j] == k && r.values[j] == v;
                    if j > 0 {
                        assert(r.keys[0] < r.keys[j]);
                    }
                    assert(j == 0);
                } else {
                    let c = choose|c: int|
                        0 <= c < r.children.len() && (#[trigger] r.children[c]).has(k, v);
                    assert(r.keys[c] < k);
                    assert(r.keys[0] <= r.keys[c]);
                    assert(false);
                }
            }
        }
        r
    }

    /// Recursive insertion of a key not yet present.  In a leaf the pair
    /// goes in at its insertion point; in an internal node the descent
    /// continues into the child the insertion point selects, and an
    /// overflow fragment coming back up has its first pair promoted into
    /// this node and its remainder adopted as a new sibling.  If this
    /// node itself now holds one key too many, it splits, and the caller
    /// receives the upper fragment.
    pub fn insert_recursive(&mut self, key: u64, value: u64) -> (r: Option<BTreeNode>)
        requires
            old(self).wf(),
            !old(self).has_key(key),
        ensures
            final(self).wf(),
            final(self).node_size == old(self).node_size,
            final(self).height() == old(self).height(),
            // A fragment comes back only out of a node that was full, so
            // no node is ever split below `node_size + 1` keys; in a leaf
            // a full node always overflows, so there the two coincide.
            r.is_some() ==> old(self).keys@.len() == old(self).node_size,
            old(self).children@.len() == 0 ==> {
                &&& (r.is_some() <==> old(self).keys@.len() == old(self).node_size)
                &&& final(self).children@.len() == 0
                &&& (r.is_none() ==> final(self).keys@ == old(self).keys@.insert(
                    insertion_point(old(self).keys@, key),
                    key,
                ) && final(self).values@ == old(self).values@.insert(
                    insertion_point(old(self).keys@, key),
                    value,
                ))
            },
            match r {
                None => forall|k: u64, v: u64|
                    #![trigger final(self).has(k, v)]
                    #![trigger old(self).has(k, v)]
                    final(self).has(k, v) <==> old(self).has(k, v) || (k == key && v == value),
                Some(frag) => {
                    &&& frag.frag_wf()
                    &&& frag.node_size == old(self).node_size
                    &&& frag.height() == old(self).height()
                    &&& final(self).keys@.len() == (old(self).node_size + 1) / 2
                    &&& frag.keys@.len() == old(self).node_size + 1 - (old(self).node_size + 1) / 2
                    &&& forall|k: u64, v: u64|
                        #![trigger final(self).has(k, v)]
                        #![trigger frag.has(k, v)]
                        #![trigger old(self).has(k, v)]
                        final(self).has(k, v) || frag.has(k, v) <==> old(self).has(k, v) || (k
                            == key && v == value)
                    &&& forall|k: u64, v: u64| #[trigger] final(self).has(k, v) ==> k < frag.keys[0]
                    &&& forall|k: u64, v: u64| #[trigger] frag.has(k, v) ==> k >= frag.keys[0]
                    &&& forall|v: u64| #[trigger] frag.has(frag.keys[0], v) ==> v == frag.values[0]
                },
            },
        decreases old(self).height(),
    {
        let ghost o = *old(self);
        let i_raw = Self::next_index(&self.keys, &key);
        proof {
            // The key is not yet present, so the search cannot find it.
            if i_raw < 0 {
                let j = -(i_raw + 1) as int;
                assert(o.has(key, o.values[j]));
                assert(false);
            }
        }
        let idx: usize = i_raw as usize;
        if self.children.len() == 0 {
            self.keys.insert(idx, key);
            self.values.insert(idx, value);
            proof {
                lemma_leaf_insert(o, *self, idx as int, key, value);
                lemma_insertion_point_unique(o.keys@, key, idx as int);
            }
        } else {
            proof {
                assert(idx < self.children.len());
            }
            let mut child = self.children.remove(idx);
            proof {
                assert(child == o.children[idx as int]);
                if exists|v: u64| child.has(key, v) {
                    let v = choose|v: u64| child.has(key, v);
                    assert(o.children[idx as int].has(key, v));
                    assert(o.has(key, v));
                    assert(false);
                }
                assert(child.height() < o.height());
            }
            let sub = child.insert_recursive(key, value);
            match sub {
                None => {
                    self.children.insert(idx, child);
                    proof {
                        lemma_replace_child(o, *self, child, idx as int, key, value);
                    }
                },
                Some(mut frag) => {
                    let ghost frag0 = frag;
                    let fk = frag.keys.remove(0);
                    let fv = frag.values.remove(0);
                    let ghost rest = frag;
                    self.children.insert(idx, child);
                    self.children.insert(idx + 1, frag);
                    self.keys.insert(idx, fk);
                    self.values.insert(idx, fv);
                    proof {
                        lemma_absorb_frag(
                            o,
                            *self,
                            child,
                            frag0,
                            rest,
                            idx as int,
                            key,
                            value,
                        );
                    }
                },
            }
        }
        // Mid-state: the pair is in, every invariant holds, and there is
        // at most one key too many.  Split if the node has overflowed.
        if self.keys.len() == self.node_size + 1 {
            let ghost mstate = *self;
            proof {
                assert(mstate.overfull());
            }
            let right = self.split();
            proof {
                assert forall|k: u64, v: u64|
                    #![trigger self.has(k, v)]
                    #![trigger right.has(k, v)]
                    #![trigger o.has(k, v)]
                    self.has(k, v) || right.has(k, v) <==> o.has(k, v) || (k == key && v
                        == value) by {
                    assert(self.has(k, v) || right.has(k, v) <==> mstate.has(k, v));
                    assert(mstate.has(k, v) <==> o.has(k, v) || (k == key && v == value));
                }
            }
            return Some(right);
        }
        proof {
            assert(self.wf());
        }
        None
    }

    /// In-order traversal: every key stored in the subtree, ascending —
    /// child `i`, then key `i`, for each slot, then the rightmost child.
    pub fn keys_in_order(&self) -> (r: Vec<u64>)
        requires
            self.wf(),
        ensures
            r@ == self.in_order_keys(),
        decreases self.height(),
    {
        let mut out: Vec<u64> = Vec::new();
        let mut i: usize = 0;
        proof {
            assert(out@ + self.in_order_from(0) =~= self.in_order_keys());
        }
        while i < self.keys.len()
            invariant
                self.wf(),
                i <= self.keys.len(),
                out@ + self.in_order_from(i as int) == self.in_order_keys(),
            decreases self.keys.len() - i,
        {
            let ghost pre = out@;
            let ghost ii = i as int;
            if self.children.len() > 0 {
                proof {
                    assert(self.children[ii].height() < self.height());
                }
                let mut sub = self.children[i].keys_in_order();
                out.append(&mut sub);
            }
            out.push(self.keys[i]);
            proof {
                let child_part: Seq<u64> = if self.children.len() == self.keys.len() + 1 {
                    self.children[ii].in_order_keys()
                } else {
                    Seq::empty()
                };
                assert(out@ =~= pre + child_part + seq![self.keys[ii]]);
                assert(self.in_order_from(ii) == child_part + seq![self.keys[ii]]
                    + self.in_order_from(ii + 1));
                assert(out@ + self.in_order_from(ii + 1) =~= pre + self.in_order_from(ii));
            }
            i = i + 1;
        }
        if self.children.len() > 0 {
            proof {
                assert(self.children[i as int].height() < self.height());
            }
            let ghost pre = out@;
            let mut sub = self.children[self.keys.len()].keys_in_order();
            out.append(&mut sub);
            proof {
                assert(self.in_order_from(i as int) == self.children[i as int].in_order_keys());
                assert(out@ =~= pre + self.in_order_from(i as int));
            }
        } else {
            proof {
                assert(self.in_order_from(i as int) =~= Seq::<u64>::empty());
                assert(out@ + self.in_order_from(i as int) =~= out@);
            }
        }
        out
    }
}

/// Inserting a pair at its insertion point in a leaf yields a leaf that
/// holds the old pairs plus the new one, with its keys still strictly
/// sorted — possibly one key above capacity, to be settled by a split.
proof fn lemma_leaf_insert(o: BTreeNode, s: BTreeNode, idx: int, key: u64, value: u64)
    requires
        o.wf(),
        o.children.len() == 0,
        0 <= idx <= o.keys.len(),
        forall|j: int| 0 <= j < idx ==> o.keys[j] < key,
        forall|j: int| idx <= j < o.keys.len() ==> key < o.keys[j],
        s.node_size == o.node_size,
        s.children@ == o.children@,
        s.keys@ == o.keys@.insert(idx, key),
        s.values@ == o.values@.insert(idx, value),
    ensures
        s.wf_except_capacity(),
        s.keys.len() == o.keys.len() + 1,
        s.height() == o.height(),
        forall|k: u64, v: u64|
            #![trigger s.has(k, v)]
            #![trigger o.has(k, v)]
            s.has(k, v) <==> o.has(k, v) || (k == key && v == value),
{
    o.keys@.insert_ensures(idx, key);
    o.values@.insert_ensures(idx, value);
    assert forall|i: int, j: int| 0 <= i < j < s.keys.len() implies s.keys[i] < s.keys[j] by {
        if i < idx && j > idx {
            assert(s.keys[i] == o.keys[i] && s.keys[j] == o.keys[j - 1]);
        }
    }
    assert(s.wf_except_capacity());
    assert forall|k: u64, v: u64| #![auto] s.has(k, v) implies o.has(k, v) || (k == key && v
        == value) by {
        let j = choose|j: int|
            #![trigger s.keys[j]]
            0 <= j < s.keys.len() && s.keys[j] == k && s.values[j] == v;
        if j < idx {
            assert(o.keys[j] == k && o.values[j] == v);
        } else if j > idx {
            assert(o.keys[j - 1] == k && o.values[j - 1] == v);
        }
    }
    assert forall|k: u64, v: u64| o.has(k, v) implies s.has(k, v) by {
        let j = choose|j: int|
            #![trigger o.keys[j]]
            0 <= j < o.keys.len() && o.keys[j] == k && o.values[j] == v;
        if j < idx {
            assert(s.keys[j] == k && s.values[j] == v);
        } else {
            assert(s.keys[j + 1] == k && s.values[j + 1] == v);
        }
    }
    assert(s.keys[idx] == key && s.values[idx] == value);
    assert(s.has(key, value));
}

/// Replacing child `idx` of a well-formed internal node by a settled
/// child that holds the old child's pairs plus one new pair — keyed
/// strictly between the keys that surround the child — preserves every
/// invariant and adds exactly that pair to the node.
#[verifier::rlimit(100)]
proof fn lemma_replace_child(
    o: BTreeNode,
    s: BTreeNode,
    child: BTreeNode,
    idx: int,
    key: u64,
    value: u64,
)
    requires
        o.wf(),
        o.children.len() > 0,
        0 <= idx < o.children.len(),
        forall|j: int| 0 <= j < idx ==> o.keys[j] < key,
        forall|j: int| idx <= j < o.keys.len() ==> key < o.keys[j],
        child.wf(),
        child.node_size == o.node_size,
        child.height() == o.children[idx].height(),
        forall|k: u64, v: u64|
            #![trigger child.has(k, v)]
            #![trigger o.children[idx].has(k, v)]
            child.has(k, v) <==> o.children[idx].has(k, v) || (k == key && v == value),
        s.node_size == o.node_size,
        s.keys@ == o.keys@,
        s.values@ == o.values@,
        s.children@ == o.children@.remove(idx).insert(idx, child),
    ensures
        s.wf_except_capacity(),
        s.keys.len() == o.keys.len(),
        s.height() == o.height(),
        forall|k: u64, v: u64|
            #![trigger s.has(k, v)]
            #![trigger o.has(k, v)]
            s.has(k, v) <==> o.has(k, v) || (k == key && v == value),
{
    o.children@.remove(idx).insert_ensures(idx, child);
    assert(s.children.len() == o.children.len());
    assert(forall|j: int| 0 <= j < s.children.len() && j != idx ==> s.children[j] == o.children[j]);
    assert(s.children[idx] == child);
    assert forall|j: int, k: u64, v: u64|
        0 <= j < s.children.len() && #[trigger] s.children[j].has(k, v) implies {
            &&& (j > 0 ==> s.keys[j - 1] < k)
            &&& (j < s.keys.len() ==> k < s.keys[j])
        } by {
        if j == idx {
            assert(child.has(k, v));
            if !(k == key && v == value) {
                assert(o.children[j].has(k, v));
            }
        } else {
            assert(o.children[j].has(k, v));
        }
    }
    assert(s.wf_except_capacity());
    assert(s.height() == o.height());
    assert forall|k: u64, v: u64| #![auto] s.has(k, v) implies o.has(k, v) || (k == key && v
        == value) by {
        if !(exists|j: int|
            #![trigger s.keys[j]]
            0 <= j < s.keys.len() && s.keys[j] == k && s.values[j] == v) {
            let c = choose|c: int| 0 <= c < s.children.len() && (#[trigger] s.children[c]).has(k, v);
            if c == idx {
                if !(k == key && v == value) {
                    assert(o.children[c].has(k, v));
                    assert(o.has(k, v));
                }
            } else {
                assert(o.children[c].has(k, v));
                assert(o.has(k, v));
            }
        }
    }
    assert forall|k: u64, v: u64| o.has(k, v) implies s.has(k, v) by {
        if !(exists|j: int|
            #![trigger o.keys[j]]
            0 <= j < o.keys.len() && o.keys[j] == k && o.values[j] == v) {
            let c = choose|c: int| 0 <= c < o.children.len() && (#[trigger] o.children[c]).has(k, v);
            if c == idx {
                assert(child.has(k, v));
                assert(s.children[c].has(k, v));
            } else {
                assert(s.children[c].has(k, v));
            }
        }
    }
    assert(child.has(key, value));
    assert(s.children[idx].has(key, value));
    assert(s.has(key, value));
}

/// Absorbing an overflow fragment into a well-formed internal node:
/// child `idx` has been replaced by the settled lower half, the
/// fragment's first pair goes into this node's own key run at `idx`, and
/// the rest of the fragment becomes the child after it.  The node ends up
/// holding its old pairs plus the one freshly inserted pair — possibly
/// one key above capacity, to be settled by a split.
#[verifier::rlimit(100)]
proof fn lemma_absorb_frag(
    o: BTreeNode,
    s: BTreeNode,
    child: BTreeNode,
    frag0: BTreeNode,
    rest: BTreeNode,
    idx: int,
    key: u64,
    value: u64,
)
    requires
        o.wf(),
        o.children.len() > 0,
        0 <= idx < o.children.len(),
        forall|j: int| 0 <= j < idx ==> o.keys[j] < key,
        forall|j: int| idx <= j < o.keys.len() ==> key < o.keys[j],
        child.wf(),
        child.node_size == o.node_size,
        child.height() == o.children[idx].height(),
        frag0.frag_wf(),
        frag0.node_size == o.node_size,
        frag0.height() == o.children[idx].height(),
        forall|k: u64, v: u64|
            #![trigger child.has(k, v)]
            #![trigger frag0.has(k, v)]
            #![trigger o.children[idx].has(k, v)]
            child.has(k, v) || frag0.has(k, v) <==> o.children[idx].has(k, v) || (k == key && v
                == value),
        forall|k: u64, v: u64| #[trigger] child.has(k, v) ==> k < frag0.keys[0],
        forall|k: u64, v: u64| #[trigger] frag0.has(k, v) ==> k >= frag0.keys[0],
        forall|v: u64| #[trigger] frag0.has(frag0.keys[0], v) ==> v == frag0.values[0],
        rest.node_size == frag0.node_size,
        rest.keys@ == frag0.keys@.remove(0),
        rest.values@ == frag0.values@.remove(0),
        rest.children@ == frag0.children@,
        s.node_size == o.node_size,
        s.keys@ == o.keys@.insert(idx, frag0.keys[0]),
        s.values@ == o.values@.insert(idx, frag0.values[0]),
        s.children@ == o.children@.remove(idx).insert(idx, child).insert(idx + 1, rest),
    ensures
        s.wf_except_capacity(),
        s.keys.len() == o.keys.len() + 1,
        s.height() == o.height(),
        forall|k: u64, v: u64|
            #![trigger s.has(k, v)]
            #![trigger o.has(k, v)]
            s.has(k, v) <==> o.has(k, v) || (k == key && v == value),
{
    let fk = frag0.keys[0];
    let fv = frag0.values[0];
    lemma_frag_rest(frag0, rest);
    assert(frag0.has(fk, fv));
    // The promoted key lies strictly between the keys that surround the
    // child the fragment came out of.
    if !(fk == key && fv == value) {
        assert(o.children[idx].has(fk, fv));
    }
    assert(idx > 0 ==> o.keys[idx - 1] < fk);
    assert(idx < o.keys.len() ==> fk < o.keys[idx]);

    o.children@.remove(idx).insert_ensures(idx, child);
    o.children@.remove(idx).insert(idx, child).insert_ensures(idx + 1, rest);
    o.keys@.insert_ensures(idx, fk);
    o.values@.insert_ensures(idx, fv);
    assert(s.keys.len() == o.keys.len() + 1);
    assert(s.children.len() == o.children.len() + 1);
    assert(forall|j: int| 0 <= j < idx ==> s.keys[j] == o.keys[j] && s.values[j] == o.values[j]);
    assert(s.keys[idx] == fk && s.values[idx] == fv);
    assert(forall|j: int|
        idx < j < s.keys.len() ==> s.keys[j] == o.keys[j - 1] && s.values[j] == o.values[j - 1]);
    assert(forall|j: int| 0 <= j < idx ==> s.children[j] == o.children[j]);
    assert(s.children[idx] == child);
    assert(s.children[idx + 1] == rest);
    assert(forall|j: int| idx + 1 < j < s.children.len() ==> s.children[j] == o.children[j - 1]);

    assert forall|i: int, j: int| 0 <= i < j < s.keys.len() implies s.keys[i] < s.keys[j] by {
        if i < idx && j > idx {
            assert(s.keys[i] == o.keys[i] && s.keys[j] == o.keys[j - 1]);
        }
    }

    assert forall|j: int, k: u64, v: u64|
        0 <= j < s.children.len() && #[trigger] s.children[j].has(k, v) implies {
            &&& (j > 0 ==> s.keys[j - 1] < k)
            &&& (j < s.keys.len() ==> k < s.keys[j])
        } by {
        if j < idx {
            assert(o.children[j].has(k, v));
        } else if j == idx {
            assert(child.has(k, v));
            assert(k < fk);
            if !(k == key && v == value) {
                assert(o.children[j].has(k, v));
            }
        } else if j == idx + 1 {
            assert(rest.has(k, v));
            assert(k > fk);
            assert(frag0.has(k, v));
            if !(k == key && v == value) {
                assert(o.children[idx].has(k, v));
            }
        } else {
            assert(o.children[j - 1].has(k, v));
        }
    }
    // Every child keeps the common height.
    assert(child.height() == o.children[idx].height());
    assert(rest.height() == o.children[idx].height());
    assert forall|j: int| #![trigger s.children[j]] 0 <= j < s.children.len() implies {
        &&& s.children[j].wf()
        &&& s.children[j].node_size == s.node_size
        &&& s.children[j].height() == s.children[0].height()
    } by {
        if j > idx + 1 {
            assert(s.children[j] == o.children[j - 1]);
        }
    }
    assert(s.wf_except_capacity());
    assert(s.height() == o.height());

    assert forall|k: u64, v: u64| #![auto] s.has(k, v) implies o.has(k, v) || (k == key && v
        == value) by {
        if exists|j: int|
            #![trigger s.keys[j]]
            0 <= j < s.keys.len() && s.keys[j] == k && s.values[j] == v {
            let j = choose|j: int|
                #![trigger s.keys[j]]
                0 <= j < s.keys.len() && s.keys[j] == k && s.values[j] == v;
            if j < idx {
                assert(o.keys[j] == k && o.values[j] == v);
            } else if j == idx {
                if !(k == key && v == value) {
                    assert(o.children[idx].has(k, v));
                    assert(o.has(k, v));
                }
            } else {
                assert(o.keys[j - 1] == k && o.values[j - 1] == v);
            }
        } else {
            let c = choose|c: int| 0 <= c < s.children.len() && (#[trigger] s.children[c]).has(k, v);
            if c == idx {
                assert(child.has(k, v));
                if !(k == key && v == value) {
                    assert(o.children[idx].has(k, v));
                    assert(o.has(k, v));
                }
            } else if c == idx + 1 {
                assert(rest.has(k, v));
                assert(frag0.has(k, v));
                if !(k == key && v == value) {
                    assert(o.children[idx].has(k, v));
                    assert(o.has(k, v));
                }
            } else if c < idx {
                assert(o.children[c].has(k, v));
                assert(o.has(k, v));
            } else {
                assert(o.children[c - 1].has(k, v));
                assert(o.has(k, v));
            }
        }
    }
    assert forall|k: u64, v: u64| o.has(k, v) implies s.has(k, v) by {
        if exists|j: int|
            #![trigger o.keys[j]]
            0 <= j < o.keys.len() && o.keys[j] == k && o.values[j] == v {
            let j = choose|j: int|
                #![trigger o.keys[j]]
                0 <= j < o.keys.len() && o.keys[j] == k && o.values[j] == v;
            if j < idx {
                assert(s.keys[j] == k && s.values[j] == v);
            } else {
                assert(s.keys[j + 1] == k && s.values[j + 1] == v);
            }
        } else {
            let c = choose|c: int| 0 <= c < o.children.len() && (#[trigger] o.children[c]).has(k, v);
            if c < idx {
                assert(s.children[c].has(k, v));
            } else if c == idx {
                // The pair stayed in the lower half, was promoted, or
                // sits in the adopted sibling.
                assert(child.has(k, v) || frag0.has(k, v));
                if child.has(k, v) {
                    assert(s.children[c].has(k, v));
                } else {
                    if k == fk {
                        assert(v == fv);
                        assert(s.keys[idx] == k && s.values[idx] == v);
                    } else {
                        assert(rest.has(k, v));
                        assert(s.children[c + 1].has(k, v));
                    }
                }
            } else {
                assert(s.children[c + 1].has(k, v));
            }
        }
    }
    assert(child.has(key, value) || frag0.has(key, value));
    if child.has(key, value) {
        assert(s.children[idx].has(key, value));
    } else {
        if key == fk {
            assert(s.keys[idx] == key && s.values[idx] == value);
        } else {
            assert(rest.has(key, value));
            assert(s.children[idx + 1].has(key, value));
        }
    }
    assert(s.has(key, value));
}

/// In a well-formed node, a key that compares strictly between the keys
/// surrounding child `i` can only be stored inside child `i`: the node's
/// own keys all differ from it, and every other child is fenced away from
/// it by a separating key.
pub(crate) proof fn lemma_descend_frames(n: BTreeNode, key: u64, i: int)
    requires
        n.wf_except_capacity(),
        n.children.len() > 0,
        0 <= i <= n.keys.len(),
        forall|j: int| 0 <= j < i ==> n.keys[j] < key,
        forall|j: int| i <= j < n.keys.len() ==> key < n.keys[j],
    ensures
        forall|v: u64| #[trigger] n.has(key, v) <==> n.children[i].has(key, v),
{
    assert forall|v: u64| #[trigger] n.has(key, v) implies n.children[i].has(key, v) by {
        if exists|j: int|
            #![trigger n.keys[j]]
            0 <= j < n.keys.len() && n.keys[j] == key && n.values[j] == v {
            let j = choose|j: int|
                #![trigger n.keys[j]]
                0 <= j < n.keys.len() && n.keys[j] == key && n.values[j] == v;
            assert(false);
        } else {
            let c = choose|c: int| 0 <= c < n.children.len() && (#[trigger] n.children[c]).has(
                key,
                v,
            );
            if c < i {
                // child c is fenced below keys[c] <= keys[i - 1] < key
                assert(key < n.keys[c]);
                assert(n.keys[c] < key);
            } else if c > i {
                assert(n.keys[c - 1] < key);
                assert(key < n.keys[c - 1]);
            }
            assert(c == i);
        }
    }
    assert forall|v: u64| n.children[i].has(key, v) implies #[trigger] n.has(key, v) by {}
}

/// Removing the first key/value pair of an overflow fragment — the pair
/// promoted into the parent — leaves a settled, well-formed node of the
/// same height holding exactly the fragment's remaining pairs, all keyed
/// strictly above the promoted key.
pub(crate) proof fn lemma_frag_rest(frag: BTreeNode, rest: BTreeNode)
    requires
        frag.frag_wf(),
        rest.node_size == frag.node_size,
        rest.keys@ == frag.keys@.remove(0),
        rest.values@ == frag.values@.remove(0),
        rest.children@ == frag.children@,
    ensures
        rest.wf(),
        rest.height() == frag.height(),
        frag.has(frag.keys[0], frag.values[0]),
        forall|v: u64| #[trigger] frag.has(frag.keys[0], v) ==> v == frag.values[0],
        forall|k: u64, v: u64|
            #![trigger rest.has(k, v)]
            #![trigger frag.has(k, v)]
            rest.has(k, v) <==> frag.has(k, v) && k != frag.keys[0],
        forall|k: u64, v: u64| #[trigger] rest.has(k, v) ==> k > frag.keys[0],
{
    let fk = frag.keys[0];
    let fv = frag.values[0];
    let n = frag.keys.len() as int;
    assert(rest.keys.len() == n - 1 && rest.values.len() == n - 1);
    assert(forall|j: int| 0 <= j < n - 1 ==> rest.keys[j] == frag.keys[j + 1]);
    assert(forall|j: int| 0 <= j < n - 1 ==> rest.values[j] == frag.values[j + 1]);

    assert forall|i: int, j: int| 0 <= i < j < rest.keys.len() implies rest.keys[i] < rest.keys[j] by {
        assert(frag.keys[i + 1] < frag.keys[j + 1]);
    }

    // The fragment's children shift one key slot to the left: child `j`
    // was fenced between `keys[j]` and `keys[j + 1]`, which are now
    // `keys[j - 1]` and `keys[j]` of the settled node.
    assert forall|j: int, k: u64, v: u64|
        0 <= j < rest.children.len() && #[trigger] rest.children[j].has(k, v) implies {
            &&& (j > 0 ==> rest.keys[j - 1] < k)
            &&& (j < rest.keys.len() ==> k < rest.keys[j])
        } by {
        assert(frag.children[j].has(k, v));
        assert(frag.keys[j] < k);
    }
    assert(rest.wf());
    if frag.children.len() > 0 {
        assert(rest.children[0] == frag.children[0]);
    }
    assert(rest.height() == frag.height());

    // The promoted pair is the only pair of the fragment keyed `fk`.
    assert forall|v: u64| #[trigger] frag.has(fk, v) implies v == fv by {
        if exists|j: int|
            #![trigger frag.keys[j]]
            0 <= j < frag.keys.len() && frag.keys[j] == fk && frag.values[j] == v {
            let j = choose|j: int|
                #![trigger frag.keys[j]]
                0 <= j < frag.keys.len() && frag.keys[j] == fk && frag.values[j] == v;
            if j > 0 {
                assert(frag.keys[0] < frag.keys[j]);
            }
            assert(j == 0);
        } else {
            let c = choose|c: int|
                0 <= c < frag.children.len() && (#[trigger] frag.children[c]).has(fk, v);
            assert(frag.keys[c] < fk);
            assert(frag.keys[0] <= frag.keys[c]);
            assert(false);
        }
    }

    // The settled node holds exactly the pairs keyed above `fk`.
    assert forall|k: u64, v: u64| #[trigger] rest.has(k, v) implies frag.has(k, v) && k > fk by {
        if exists|j: int|
            #![trigger rest.keys[j]]
            0 <= j < rest.keys.len() && rest.keys[j] == k && rest.values[j] == v {
            let j = choose|j: int|
                #![trigger rest.keys[j]]
                0 <= j < rest.keys.len() && rest.keys[j] == k && rest.values[j] == v;
            assert(frag.keys[j + 1] == k && frag.values[j + 1] == v);
            assert(frag.keys[0] < frag.keys[j + 1]);
        } else {
            let c = choose|c: int|
                0 <= c < rest.children.len() && (#[trigger] rest.children[c]).has(k, v);
            assert(frag.children[c].has(k, v));
            assert(frag.keys[c] < k);
            assert(frag.keys[0] <= frag.keys[c]);
        }
    }
    assert forall|k: u64, v: u64| frag.has(k, v) && k != fk implies rest.has(k, v) by {
        if exists|j: int|
            #![trigger frag.keys[j]]
            0 <= j < frag.keys.len() && frag.keys[j] == k && frag.values[j] == v {
            let j = choose|j: int|
                #![trigger frag.keys[j]]
                0 <= j < frag.keys.len() && frag.keys[j] == k && frag.values[j] == v;
            assert(j != 0);
            assert(rest.keys[j - 1] == k && rest.values[j - 1] == v);
        } else {
            let c = choose|c: int|
                0 <= c < frag.children.len() && (#[trigger] frag.children[c]).has(k, v);
            assert(rest.children[c].has(k, v));
        }
    }
}

/// Keys are unique tree-wide in a well-formed node, so a key determines
/// its value: the node's own keys are strictly sorted, and each child is
/// fenced strictly between the keys that surround it.
pub proof fn lemma_has_unique(n: BTreeNode, k: u64, v1: u64, v2: u64)
    requires
        n.wf(),
        n.has(k, v1),
        n.has(k, v2),
    ensures
        v1 == v2,
    decreases n,
{
    let in_keys1 = exists|j: int|
        #![trigger n.keys[j]]
        0 <= j < n.keys.len() && n.keys[j] == k && n.values[j] == v1;
    let in_keys2 = exists|j: int|
        #![trigger n.keys[j]]
        0 <= j < n.keys.len() && n.keys[j] == k && n.values[j] == v2;
    if in_keys1 && in_keys2 {
        let j1 = choose|j: int|
            #![trigger n.keys[j]]
            0 <= j < n.keys.len() && n.keys[j] == k && n.values[j] == v1;
        let j2 = choose|j: int|
            #![trigger n.keys[j]]
            0 <= j < n.keys.len() && n.keys[j] == k && n.values[j] == v2;
        if j1 < j2 {
            assert(n.keys[j1] < n.keys[j2]);
        }
        if j2 < j1 {
            assert(n.keys[j2] < n.keys[j1]);
        }
        assert(j1 == j2);
    } else if !in_keys1 && !in_keys2 {
        let c1 = choose|c: int| 0 <= c < n.children.len() && (#[trigger] n.children[c]).has(k, v1);
        let c2 = choose|c: int| 0 <= c < n.children.len() && (#[trigger] n.children[c]).has(k, v2);
        if c1 < c2 {
            assert(k < n.keys[c1]);
            assert(n.keys[c2 - 1] < k);
            assert(n.keys[c1] <= n.keys[c2 - 1]);
        }
        if c2 < c1 {
            assert(k < n.keys[c2]);
            assert(n.keys[c1 - 1] < k);
            assert(n.keys[c2] <= n.keys[c1 - 1]);
        }
        assert(c1 == c2);
        lemma_has_unique(n.children[c1], k, v1, v2);
    } else {
        // One occurrence in this node's keys, the other inside a child:
        // impossible, the child's keys avoid every key of this node.
        let (vk, vc) = if in_keys1 {
            (v1, v2)
        } else {
            (v2, v1)
        };
        let j = choose|j: int|
            #![trigger n.keys[j]]
            0 <= j < n.keys.len() && n.keys[j] == k && n.values[j] == vk;
        let c = choose|c: int| 0 <= c < n.children.len() && (#[trigger] n.children[c]).has(k, vc);
        if j <= c - 1 {
            assert(n.keys[j] <= n.keys[c - 1]);
            assert(n.keys[c - 1] < k);
        } else {
            assert(c <= j < n.keys.len());
            assert(k < n.keys[c]);
            assert(n.keys[c] <= n.keys[j]);
        }
        assert(false);
    }
}

/// Balance law: every leaf of a well-formed subtree sits at the same
/// depth below its root, namely the subtree's height.
pub proof fn lemma_wf_balanced(n: BTreeNode)
    requires
        n.wf(),
    ensures
        n.all_leaves_at(n.height()),
    decreases n,
{
    if n.children.len() > 0 {
        assert forall|j: int| #![trigger n.children[j]] 0 <= j < n.children.len() implies n.height()
            > 0 && n.children[j].all_leaves_at((n.height() - 1) as nat) by {
            lemma_wf_balanced(n.children[j]);
            assert(n.children[j].height() == n.children[0].height());
        }
    }
}

/// Capacity law: no node of a well-formed subtree holds more than its
/// configured `node_size` keys.
pub proof fn lemma_wf_within_capacity(n: BTreeNode)
    requires
        n.wf(),
    ensures
        n.within_capacity(),
    decreases n,
{
    assert forall|j: int| 0 <= j < n.children.len() implies (
    #[trigger] n.children[j]).within_capacity() by {
        lemma_wf_within_capacity(n.children[j]);
    }
}

/// Joining two strictly sorted runs stays strictly sorted when every
/// element of the first compares below every element of the second.
proof fn lemma_concat_sorted(a: Seq<u64>, b: Seq<u64>)
    requires
        strictly_sorted(a),
        strictly_sorted(b),
        forall|p: int, q: int| #![trigger a[p], b[q]] 0 <= p < a.len() && 0 <= q < b.len() ==> a[p]
            < b[q],
    ensures
        strictly_sorted(a + b),
{
    assert forall|i: int, j: int| 0 <= i < j < (a + b).len() implies (a + b)[i] < (a + b)[j] by {
        if i < a.len() && j >= a.len() {
            assert(a[i] < b[j - a.len()]);
        } else if i >= a.len() {
            assert(b[i - a.len()] < b[j - a.len()]);
        } else {
            assert(a[i] < a[j]);
        }
    }
}

/// Order law, stepwise: from key slot `i` on, the in-order key run is
/// strictly sorted, bounded below by the key before slot `i`, and covers
/// exactly the keys held by slots and children from `i` on.
proof fn lemma_in_order_from_sorted(n: BTreeNode, i: int)
    requires
        n.wf(),
        0 <= i <= n.keys.len(),
    ensures
        strictly_sorted(n.in_order_from(i)),
        forall|x: u64| #[trigger] n.in_order_from(i).contains(x) ==> n.has_key(x) && (i > 0
            ==> n.keys[i - 1] < x),
        forall|j: int| i <= j < n.keys.len() ==> n.in_order_from(i).contains(#[trigger] n.keys[j]),
        forall|j: int, x: u64|
            i <= j < n.children.len() && #[trigger] n.children[j].has_key(x) ==> n.in_order_from(
                i,
            ).contains(x),
    decreases n, n.keys.len() - i + 1,
{
    let run = n.in_order_from(i);
    let internal = n.children.len() == n.keys.len() + 1;
    let child_part: Seq<u64> = if internal {
        n.children[i].in_order_keys()
    } else {
        Seq::empty()
    };
    if internal {
        lemma_in_order_sorted(n.children[i]);
    }
    assert forall|x: u64| #[trigger] child_part.contains(x) implies {
        &&& n.has_key(x)
        &&& (i > 0 ==> n.keys[i - 1] < x)
        &&& (i < n.keys.len() ==> x < n.keys[i])
    } by {
        assert(n.children[i].has_key(x));
        let v = choose|v: u64| n.children[i].has(x, v);
        assert(n.children[i].has(x, v));
        assert(n.has(x, v));
    }
    if i == n.keys.len() {
        assert(run == child_part);
    } else {
        lemma_in_order_from_sorted(n, i + 1);
        let tail = n.in_order_from(i + 1);
        let mid = seq![n.keys[i]];
        assert(run == child_part + mid + tail);
        assert forall|x: u64| #[trigger] tail.contains(x) implies n.keys[i] < x by {}
        assert forall|p: int, q: int|
            0 <= p < child_part.len() && 0 <= q < mid.len() implies child_part[p] < mid[q] by {
            assert(child_part.contains(child_part[p]));
        }
        lemma_concat_sorted(child_part, mid);
        assert forall|p: int, q: int|
            0 <= p < (child_part + mid).len() && 0 <= q < tail.len() implies (child_part + mid)[p]
            < tail[q] by {
            assert(tail.contains(tail[q]));
            if p < child_part.len() {
                assert(child_part.contains(child_part[p]));
                assert((child_part + mid)[p] == child_part[p]);
            } else {
                assert((child_part + mid)[p] == n.keys[i]);
            }
        }
        lemma_concat_sorted(child_part + mid, tail);
        assert(strictly_sorted(run));

        // Forward: everything in the run is a stored key above the fence.
        assert forall|x: u64| #[trigger] run.contains(x) implies n.has_key(x) && (i > 0
            ==> n.keys[i - 1] < x) by {
            let m = choose|m: int| 0 <= m < run.len() && run[m] == x;
            if m < child_part.len() {
                assert(child_part[m] == x);
                assert(child_part.contains(x));
            } else if m == child_part.len() {
                assert(x == n.keys[i]);
                assert(n.has(x, n.values[i]));
            } else {
                assert(tail[m - child_part.len() - 1] == x);
                assert(tail.contains(x));
            }
        }

        // Backward: every key slot and child from `i` on is in the run.
        assert forall|j: int| i <= j < n.keys.len() implies run.contains(#[trigger] n.keys[j]) by {
            if j == i {
                assert(run[child_part.len() as int] == n.keys[i]);
            } else {
                assert(tail.contains(n.keys[j]));
                let m = choose|m: int| 0 <= m < tail.len() && tail[m] == n.keys[j];
                assert(run[child_part.len() + 1 + m] == n.keys[j]);
            }
        }
        assert forall|j: int, x: u64|
            i <= j < n.children.len() && #[trigger] n.children[j].has_key(x) implies run.contains(
            x,
        ) by {
            if j == i {
                assert(child_part.contains(x));
                let m = choose|m: int| 0 <= m < child_part.len() && child_part[m] == x;
                assert(run[m] == x);
            } else {
                assert(tail.contains(x));
                let m = choose|m: int| 0 <= m < tail.len() && tail[m] == x;
                assert(run[child_part.len() + 1 + m] == x);
            }
        }
    }
}

/// Order law: the in-order key run of a well-formed subtree is strictly
/// ascending and holds exactly the keys the subtree stores.
pub proof fn lemma_in_order_sorted(n: BTreeNode)
    requires
        n.wf(),
    ensures
        strictly_sorted(n.in_order_keys()),
        forall|x: u64| #[trigger] n.in_order_keys().contains(x) <==> n.has_key(x),
    decreases n, n.keys.len() + 2,
{
    lemma_in_order_from_sorted(n, 0);
    assert forall|x: u64| n.has_key(x) implies n.in_order_keys().contains(x) by {
        let v = choose|v: u64| n.has(x, v);
        assert(n.has(x, v));
        if exists|j: int|
            #![trigger n.keys[j]]
            0 <= j < n.keys.len() && n.keys[j] == x && n.values[j] == v {
            let j = choose|j: int|
                #![trigger n.keys[j]]
                0 <= j < n.keys.len() && n.keys[j] == x && n.values[j] == v;
            assert(n.in_order_from(0).contains(n.keys[j]));
        } else {
            let c = choose|c: int| 0 <= c < n.children.len() && (#[trigger] n.children[c]).has(x, v);
            assert(n.children[c].has_key(x));
        }
    }
}

} // verus!
