use vstd::prelude::*;

use crate::id_set::IdSet;
use crate::id_set::PrimaryId;

verus! {

/// A single node in the prefix tree.
pub struct TreeNode {
    /// Index of the node's value slot in the tree's value arena, if
    /// the key ending at this node has a posting.
    pub value: Option<usize>,
    /// Children of this subtree: an edge list sorted strictly by
    /// character, each entry naming the child's index in the node
    /// arena.
    pub children: Vec<(char, usize)>,
}

/// Whether an edge list is sorted strictly by the code-unit order of
/// its characters; strictness also rules out duplicate characters.
pub open spec fn children_sorted(children: Seq<(char, usize)>) -> bool {
    forall|a: int, b: int|
        #![trigger children[a], children[b]]
        0 <= a < b < children.len() ==> (children[a].0 as u32) < (children[b].0 as u32)
}

/// Whether the edge list has an edge labelled `c`.
pub open spec fn has_child_seq(children: Seq<(char, usize)>, c: char) -> bool {
    exists|k: int| 0 <= k < children.len() && (#[trigger] children[k]).0 == c
}

/// The target of the edge labelled `c`; meaningful when such an edge
/// exists and characters are unique.
pub open spec fn child_seq(children: Seq<(char, usize)>, c: char) -> int {
    children[choose|k: int| 0 <= k < children.len() && (#[trigger] children[k]).0 == c].1 as int
}

impl TreeNode {
    /// Creates a new `TreeNode` with the given value slot and no
    /// children.
    pub fn new(value: Option<usize>) -> (r: TreeNode)
        ensures
            r.value == value,
            r.children@ == Seq::<(char, usize)>::empty(),
    {
        TreeNode { value, children: Vec::<(char, usize)>::new() }
    }

    /// Finds the index of the child that matches the key by binary
    /// search over the sorted edge list.  If no child matches, `None`
    /// is returned.
    pub fn find_child(&self, key: &char) -> (r: Option<usize>)
        requires
            children_sorted(self.children@),
        ensures
            r is Some ==> has_child_seq(self.children@, *key) && r.unwrap() as int == child_seq(
                self.children@,
                *key,
            ),
            r is None ==> !has_child_seq(self.children@, *key),
    {
        let mut lo: usize = 0;
        let mut hi: usize = self.children.len();
        while lo < hi
            invariant
                children_sorted(self.children@),
                0 <= lo <= hi <= self.children@.len(),
                forall|k: int|
                    0 <= k < lo ==> ((#[trigger] self.children@[k]).0 as u32) < (*key as u32),
                forall|k: int|
                    hi <= k < self.children@.len() ==> (*key as u32) < ((
                    #[trigger] self.children@[k]).0 as u32),
            decreases hi - lo,
        {
            let mid = lo + (hi - lo) / 2;
            let c = self.children[mid].0;
            if (c as u32) < (*key as u32) {
                lo = mid + 1;
            } else if (*key as u32) < (c as u32) {
                hi = mid;
            } else {
                proof {
                    vstd::utf8::char_u32_cast(c, c as u32);
                    vstd::utf8::char_u32_cast(*key, *key as u32);
                    assert(self.children@[mid as int].0 == *key);
                    let k = choose|k: int|
                        0 <= k < self.children@.len() && (#[trigger] self.children@[k]).0 == *key;
                    assert(k == mid) by {
                        if k < mid {
                            assert((self.children@[k].0 as u32) < (self.children@[mid as int].0
                            as u32));
                        }
                        if k > mid {
                            assert((self.children@[mid as int].0 as u32) < (self.children@[k].0
                            as u32));
                        }
                    }
                }
                return Some(self.children[mid].1);
            }
        }
        proof {
            if has_child_seq(self.children@, *key) {
                let k = choose|k: int|
                    0 <= k < self.children@.len() && (#[trigger] self.children@[k]).0 == *key;
                assert(false);
            }
        }
        None
    }

    /// Inserts a new edge at its sorted position, keeping the edge
    /// list ordered for binary search.
    pub fn insert_child(&mut self, key: char, child_id: usize)
        requires
            children_sorted(old(self).children@),
            !has_child_seq(old(self).children@, key),
        ensures
            final (self).value == old(self).value,
            children_sorted(final (self).children@),
            exists|pos: int|
                0 <= pos <= old(self).children@.len() && final (self).children@ == old(
                    self,
                ).children@.insert(pos, (key, child_id)),
    {
        let n = self.children.len();
        let mut pos: usize = 0;
        while pos < n && (self.children[pos].0 as u32) < (key as u32)
            invariant
                n == self.children@.len(),
                0 <= pos <= n,
                children_sorted(self.children@),
                *self == *old(self),
                forall|k: int|
                    0 <= k < pos ==> ((#[trigger] self.children@[k]).0 as u32) < (key as u32),
            decreases n - pos,
        {
            pos += 1;
        }
        proof {
            assert forall|k: int| pos <= k < n implies (key as u32) < ((
            #[trigger] self.children@[k]).0 as u32) by {
                vstd::utf8::char_u32_cast(self.children@[k].0, self.children@[k].0 as u32);
                vstd::utf8::char_u32_cast(key, key as u32);
                assert(self.children@[k].0 != key);
                if k > pos {
                    assert((self.children@[pos as int].0 as u32) <= (self.children@[k].0 as u32));
                }
            }
        }
        let ghost pre = self.children@;
        self.children.insert(pos, (key, child_id));
        proof {
            assert(self.children@ == pre.insert(pos as int, (key, child_id)));
            assert(children_sorted(self.children@)) by {
                assert forall|a: int, b: int|
                    0 <= a < b < self.children@.len() implies ((#[trigger] self.children@[a]).0
                    as u32) < ((#[trigger] self.children@[b]).0 as u32) by {
                    assert(self.children@[a] == if a < pos {
                        pre[a]
                    } else if a == pos {
                        (key, child_id)
                    } else {
                        pre[a - 1]
                    });
                    assert(self.children@[b] == if b < pos {
                        pre[b]
                    } else if b == pos {
                        (key, child_id)
                    } else {
                        pre[b - 1]
                    });
                }
            }
        }
    }

    /// Sets the value slot of this node.
    pub fn set(&mut self, value: usize)
        ensures
            final (self).value == Some(value),
            final (self).children == old(self).children,
    {
        self.value = Some(value);
    }

    /// Gets the current value slot of this node, or `None` if none was
    /// set before.
    pub fn get(&self) -> (r: Option<usize>)
        ensures
            r == self.value,
    {
        self.value
    }
}

/// Prefix tree specialized in storing sets of primary identifiers and
/// accessing them by string keys.
///
/// The tree is an arena: nodes live in one vector and address each
/// other by index, node `0` being the root; postings live in a second
/// vector, addressed by the nodes' value slots.  The mapping each key
/// has to its posting is the spec function
/// [`ids_at`](HashSetPrefixTree::ids_at).
pub struct HashSetPrefixTree<P> {
    /// The node arena; index 0 is the root of the tree.
    nodes: Vec<TreeNode>,
    /// Stores all postings of the tree.
    values: Vec<IdSet<P>>,
    /// The key under which each node is reached from the root.
    paths: Ghost<Map<int, Seq<char>>>,
}

impl<P> HashSetPrefixTree<P> {
    /// The node at arena index `n`.
    spec fn nd(&self, n: int) -> TreeNode {
        self.nodes@[n]
    }

    /// Whether `(n, k)` names the `k`-th edge of node `n`.
    spec fn is_edge(&self, n: int, k: int) -> bool {
        0 <= n < self.nodes@.len() && 0 <= k < self.nd(n).children@.len()
    }

    /// The `k`-th edge of node `n`.
    spec fn edge(&self, n: int, k: int) -> (char, usize) {
        self.nd(n).children@[k]
    }

    /// Well-formedness of the arena:
    /// - the root exists and every edge list is sorted;
    /// - edges point forward in the arena, so the structure is acyclic;
    /// - no two edges share a target and nothing points at the root,
    ///   so every node is reached on exactly one path, recorded in
    ///   `paths`;
    /// - value slots are in range and belong to exactly one node each.
    pub closed spec fn wf(&self) -> bool {
        &&& self.nodes@.len() >= 1
        &&& forall|n: int|
            0 <= n < self.nodes@.len() ==> children_sorted((#[trigger] self.nd(n)).children@)
        &&& forall|n: int, k: int|
            self.is_edge(n, k) ==> n < (#[trigger] self.edge(n, k)).1 < self.nodes@.len()
        &&& forall|n1: int, k1: int, n2: int, k2: int|
            #![trigger self.edge(n1, k1), self.edge(n2, k2)]
            self.is_edge(n1, k1) && self.is_edge(n2, k2) && (n1 != n2 || k1 != k2)
                ==> self.edge(n1, k1).1 != self.edge(n2, k2).1
        &&& forall|n: int, k: int| self.is_edge(n, k) ==> (#[trigger] self.edge(n, k)).1 != 0
        &&& forall|n: int|
            #![trigger self.nd(n).value]
            0 <= n < self.nodes@.len() && self.nd(n).value is Some ==> self.nd(
                n,
            ).value.unwrap() < self.values@.len() && self.values@[self.nd(
                n,
            ).value.unwrap() as int].wf()
        &&& forall|n1: int, n2: int|
            #![trigger self.nd(n1).value, self.nd(n2).value]
            0 <= n1 < self.nodes@.len() && 0 <= n2 < self.nodes@.len() && n1 != n2 && self.nd(
                n1,
            ).value is Some && self.nd(n2).value is Some ==> self.nd(n1).value.unwrap() != self.nd(
                n2,
            ).value.unwrap()
        &&& self.paths@[0] == Seq::<char>::empty()
        &&& forall|n: int, k: int|
            self.is_edge(n, k) ==> self.paths@[(#[trigger] self.edge(n, k)).1 as int]
                == self.paths@[n].push(self.edge(n, k).0)
    }

    /// The arena index of the node reached from node `n` by walking
    /// the characters of `key`, if that path exists.
    pub closed spec fn node_at_from(&self, n: int, key: Seq<char>) -> Option<int>
        decreases key.len(),
    {
        if key.len() == 0 {
            Some(n)
        } else if has_child_seq(self.nd(n).children@, key[0]) {
            self.node_at_from(child_seq(self.nd(n).children@, key[0]), key.drop_first())
        } else {
            None
        }
    }

    /// The arena index of the node reached from the root by `key`.
    pub closed spec fn node_at(&self, key: Seq<char>) -> Option<int> {
        self.node_at_from(0, key)
    }

    /// Whether node `n` has a value slot.
    pub closed spec fn has_slot(&self, n: int) -> bool {
        self.nd(n).value is Some
    }

    /// The posting of node `n`: the contents of its value slot, or the
    /// empty set if it has none.
    pub closed spec fn node_ids(&self, n: int) -> Set<P> {
        match self.nd(n).value {
            Some(vi) => self.values@[vi as int]@,
            None => Set::empty(),
        }
    }

    /// The set of identifiers stored under `key`: the posting of the
    /// node that `key` reaches, or the empty set if the path or the
    /// posting is missing.  This is the model of the whole tree.
    pub open spec fn ids_at(&self, key: Seq<char>) -> Set<P> {
        match self.node_at(key) {
            Some(n) => self.node_ids(n),
            None => Set::empty(),
        }
    }

    /// Walking never leaves the arena, and only moves forward in it.
    proof fn lemma_node_at_in_range(&self, n: int, key: Seq<char>)
        requires
            self.wf(),
            0 <= n < self.nodes@.len(),
            self.node_at_from(n, key) is Some,
        ensures
            n <= self.node_at_from(n, key).unwrap() < self.nodes@.len(),
        decreases key.len(),
    {
        if key.len() == 0 {
        } else {
            let c = key[0];
            let children = self.nd(n).children@;
            let k = choose|k: int| 0 <= k < children.len() && (#[trigger] children[k]).0 == c;
            assert(self.is_edge(n, k));
            assert(child_seq(children, c) == self.edge(n, k).1 as int);
            self.lemma_node_at_in_range(self.edge(n, k).1 as int, key.drop_first());
        }
    }

    /// The path recorded for the node that a walk reaches is the path
    /// of the starting node extended by the walked key.  In
    /// particular, starting from the root, the key that reaches a node
    /// is unique: it is the node's recorded path.
    proof fn lemma_walk_path(&self, n: int, key: Seq<char>)
        requires
            self.wf(),
            0 <= n < self.nodes@.len(),
            self.node_at_from(n, key) is Some,
        ensures
            self.paths@[self.node_at_from(n, key).unwrap()] == self.paths@[n] + key,
        decreases key.len(),
    {
        if key.len() == 0 {
            assert(self.paths@[n] + key =~= self.paths@[n]);
        } else {
            let c = key[0];
            let children = self.nd(n).children@;
            let k = choose|k: int| 0 <= k < children.len() && (#[trigger] children[k]).0 == c;
            assert(self.is_edge(n, k));
            let ch = self.edge(n, k).1 as int;
            assert(child_seq(children, c) == ch);
            assert(self.paths@[ch] == self.paths@[n].push(c));
            self.lemma_walk_path(ch, key.drop_first());
            assert(self.paths@[n].push(c) + key.drop_first() =~= self.paths@[n] + key);
        }
    }

    /// Two different keys never reach the same node from the root.
    proof fn lemma_key_unique(&self, k1: Seq<char>, k2: Seq<char>)
        requires
            self.wf(),
            self.node_at(k1) is Some,
            self.node_at(k1) == self.node_at(k2),
        ensures
            k1 == k2,
    {
        self.lemma_walk_path(0, k1);
        self.lemma_walk_path(0, k2);
        assert(Seq::<char>::empty() + k1 =~= k1);
        assert(Seq::<char>::empty() + k2 =~= k2);
    }

    /// A walk over concatenated keys is the composition of the walks.
    proof fn lemma_walk_concat(&self, n: int, k1: Seq<char>, k2: Seq<char>)
        ensures
            self.node_at_from(n, k1 + k2) == match self.node_at_from(n, k1) {
                Some(m) => self.node_at_from(m, k2),
                None => None::<int>,
            },
        decreases k1.len(),
    {
        if k1.len() == 0 {
            assert(k1 + k2 =~= k2);
        } else {
            let c = k1[0];
            assert((k1 + k2)[0] == c);
            if has_child_seq(self.nd(n).children@, c) {
                let ch = child_seq(self.nd(n).children@, c);
                assert((k1 + k2).drop_first() =~= k1.drop_first() + k2);
                self.lemma_walk_concat(ch, k1.drop_first(), k2);
            }
        }
    }
}

impl<P> HashSetPrefixTree<P> {
    /// The number of nodes in the arena.
    pub closed spec fn arena_size(&self) -> int {
        self.nodes@.len() as int
    }

    /// Whether `n` is the index of a node of the arena.
    pub closed spec fn in_arena(&self, n: int) -> bool {
        0 <= n < self.nodes@.len()
    }

    /// The number of children of node `n`.
    pub closed spec fn child_count(&self, n: int) -> int {
        self.nd(n).children@.len() as int
    }

    /// The union of the posting of node `n` and the postings of all
    /// its descendants.
    pub closed spec fn subtree_ids(&self, n: int) -> Set<P>
        decreases self.arena_size() - n, 1int, 0int,
            when self.wf() && self.in_arena(n)
    {
        self.node_ids(n).union(self.children_subtree_ids(n, self.child_count(n)))
    }

    /// The union of the subtrees below the first `k` children of node
    /// `n`.
    pub closed spec fn children_subtree_ids(&self, n: int, k: int) -> Set<P>
        decreases self.arena_size() - n, 0int, k,
            when self.wf() && self.in_arena(n) && 0 <= k <= self.child_count(n)
    {
        if k <= 0 {
            Set::empty()
        } else {
            self.children_subtree_ids(n, k - 1).union(
                self.subtree_ids(self.edge(n, k - 1).1 as int),
            )
        }
    }

    /// Membership in a union of child subtrees means membership in
    /// one of them.
    proof fn lemma_children_subtree_member(&self, n: int, k: int, p: P)
        requires
            self.wf(),
            0 <= n < self.nodes@.len(),
            0 <= k <= self.nd(n).children@.len(),
        ensures
            self.children_subtree_ids(n, k).contains(p) <==> exists|j: int|
                0 <= j < k && self.subtree_ids((#[trigger] self.edge(n, j)).1 as int).contains(p),
        decreases k,
    {
        if k > 0 {
            assert(self.is_edge(n, k - 1));
            self.lemma_children_subtree_member(n, k - 1, p);
            if self.children_subtree_ids(n, k).contains(p) {
                if self.children_subtree_ids(n, k - 1).contains(p) {
                    let j = choose|j: int|
                        0 <= j < k - 1 && self.subtree_ids(
                            (#[trigger] self.edge(n, j)).1 as int,
                        ).contains(p);
                    assert(self.subtree_ids(self.edge(n, j).1 as int).contains(p));
                } else {
                    assert(self.subtree_ids(self.edge(n, k - 1).1 as int).contains(p));
                }
            }
            if exists|j: int|
                0 <= j < k && self.subtree_ids(
                    (#[trigger] self.edge(n, j)).1 as int,
                ).contains(p) {
                let j = choose|j: int|
                    0 <= j < k && self.subtree_ids(
                        (#[trigger] self.edge(n, j)).1 as int,
                    ).contains(p);
                if j < k - 1 {
                    assert(self.children_subtree_ids(n, k - 1).contains(p));
                }
                assert(self.children_subtree_ids(n, k).contains(p));
            }
        }
    }

    /// An identifier stored at the end of a walk from node `n` lies in
    /// the subtree below `n`.
    proof fn lemma_reach_in_subtree(&self, n: int, t: Seq<char>, p: P)
        requires
            self.wf(),
            0 <= n < self.nodes@.len(),
            self.node_at_from(n, t) is Some,
            self.node_ids(self.node_at_from(n, t).unwrap()).contains(p),
        ensures
            self.subtree_ids(n).contains(p),
        decreases t.len(),
    {
        if t.len() == 0 {
            assert(self.subtree_ids(n).contains(p));
        } else {
            let c = t[0];
            let children = self.nd(n).children@;
            let k = choose|k: int| 0 <= k < children.len() && (#[trigger] children[k]).0 == c;
            assert(self.is_edge(n, k));
            let ch = self.edge(n, k).1 as int;
            assert(child_seq(children, c) == ch);
            self.lemma_reach_in_subtree(ch, t.drop_first(), p);
            self.lemma_children_subtree_member(n, children.len() as int, p);
            assert(self.children_subtree_ids(n, children.len() as int).contains(p));
            assert(self.subtree_ids(n).contains(p));
        }
    }

    /// An identifier in the subtree below `n` is stored at the end of
    /// some walk from `n`.
    proof fn lemma_subtree_member_reach(&self, n: int, p: P)
        requires
            self.wf(),
            0 <= n < self.nodes@.len(),
            self.subtree_ids(n).contains(p),
        ensures
            exists|t: Seq<char>|
                (#[trigger] self.node_at_from(n, t)) is Some && self.node_ids(
                    self.node_at_from(n, t).unwrap(),
                ).contains(p),
        decreases self.nodes@.len() - n,
    {
        if self.node_ids(n).contains(p) {
            let t = Seq::<char>::empty();
            assert(self.node_at_from(n, t) == Some(n));
        } else {
            let children = self.nd(n).children@;
            self.lemma_children_subtree_member(n, children.len() as int, p);
            let j = choose|j: int|
                0 <= j < children.len() && self.subtree_ids(
                    (#[trigger] self.edge(n, j)).1 as int,
                ).contains(p);
            assert(self.is_edge(n, j));
            let c = self.edge(n, j).0;
            let ch = self.edge(n, j).1 as int;
            self.lemma_subtree_member_reach(ch, p);
            let t = choose|t: Seq<char>|
                (#[trigger] self.node_at_from(ch, t)) is Some && self.node_ids(
                    self.node_at_from(ch, t).unwrap(),
                ).contains(p);
            let t2 = seq![c] + t;
            assert(has_child_seq(children, c)) by {
                assert(children[j].0 == c);
            }
            let kk = choose|k: int| 0 <= k < children.len() && (#[trigger] children[k]).0 == c;
            assert(kk == j) by {
                if kk < j {
                    assert((children[kk].0 as u32) < (children[j].0 as u32));
                }
                if kk > j {
                    assert((children[j].0 as u32) < (children[kk].0 as u32));
                }
            }
            assert(child_seq(children, c) == ch);
            assert(t2[0] == c);
            assert(t2.drop_first() =~= t);
            assert(self.node_at_from(n, t2) == self.node_at_from(ch, t));
        }
    }

    /// The subtree below the node that `prefix` reaches holds exactly
    /// the identifiers stored under the keys that extend `prefix`.
    pub proof fn lemma_subtree_is_prefix_reach(&self, prefix: Seq<char>)
        requires
            self.wf(),
            self.node_at(prefix) is Some,
        ensures
            self.subtree_ids(self.node_at(prefix).unwrap()) == Set::new(
                |p: P| exists|t: Seq<char>| #[trigger] self.ids_at(prefix + t).contains(p),
            ),
    {
        let n = self.node_at(prefix).unwrap();
        self.lemma_node_at_in_range(0, prefix);
        let reach = Set::new(
            |p: P| exists|t: Seq<char>| #[trigger] self.ids_at(prefix + t).contains(p),
        );
        assert forall|p: P| self.subtree_ids(n).contains(p) implies reach.contains(p) by {
            self.lemma_subtree_member_reach(n, p);
            let t = choose|t: Seq<char>|
                (#[trigger] self.node_at_from(n, t)) is Some && self.node_ids(
                    self.node_at_from(n, t).unwrap(),
                ).contains(p);
            self.lemma_walk_concat(0, prefix, t);
            assert(self.ids_at(prefix + t).contains(p));
        }
        assert forall|p: P| reach.contains(p) implies self.subtree_ids(n).contains(p) by {
            let t = choose|t: Seq<char>| #[trigger] self.ids_at(prefix + t).contains(p);
            self.lemma_walk_concat(0, prefix, t);
            assert(self.node_at_from(n, t) is Some);
            self.lemma_reach_in_subtree(n, t, p);
        }
        assert(self.subtree_ids(n) =~= reach);
    }

    /// If a prefix reaches no node, no extension of it stores
    /// anything.
    pub proof fn lemma_no_node_no_extensions(&self, prefix: Seq<char>)
        requires
            self.node_at(prefix) is None,
        ensures
            forall|t: Seq<char>| #[trigger] self.ids_at(prefix + t) == Set::<P>::empty(),
    {
        assert forall|t: Seq<char>| #[trigger] self.ids_at(prefix + t) == Set::<P>::empty() by {
            self.lemma_walk_concat(0, prefix, t);
        }
    }

    /// Walks agree between two trees whose nodes have the same
    /// children, as long as the walk starts inside the first tree.
    proof fn lemma_node_at_agree(t1: Self, t2: Self, n: int, key: Seq<char>)
        requires
            t1.wf(),
            0 <= n < t1.nodes@.len(),
            t1.nodes@.len() <= t2.nodes@.len(),
            forall|j: int|
                0 <= j < t1.nodes@.len() ==> (#[trigger] t2.nd(j)).children@ == t1.nd(
                    j,
                ).children@,
        ensures
            t2.node_at_from(n, key) == t1.node_at_from(n, key),
        decreases key.len(),
    {
        if key.len() > 0 {
            let c = key[0];
            let ch1 = t1.nd(n).children@;
            assert(t2.nd(n).children@ == ch1);
            if has_child_seq(ch1, c) {
                let k = choose|k: int| 0 <= k < ch1.len() && (#[trigger] ch1[k]).0 == c;
                assert(t1.is_edge(n, k));
                let ch = t1.edge(n, k).1 as int;
                assert(child_seq(ch1, c) == ch);
                Self::lemma_node_at_agree(t1, t2, ch, key.drop_first());
            }
        }
    }

    /// How walks change when one new edge is added: an edge from
    /// `node_id` to the fresh, empty, so far unreachable node
    /// `new_id`.  Every walk that succeeded before succeeds unchanged;
    /// a walk that failed before either still fails or ends exactly at
    /// the new node.
    proof fn lemma_walk_after_edge(
        t1: Self,
        t2: Self,
        node_id: int,
        c: char,
        new_id: usize,
        n: int,
        key: Seq<char>,
    )
        requires
            t1.wf(),
            0 <= node_id < t1.nodes@.len(),
            new_id as int == t1.nodes@.len() - 1,
            node_id < new_id as int,
            t1.nd(new_id as int).children@ == Seq::<(char, usize)>::empty(),
            !has_child_seq(t1.nd(node_id).children@, c),
            t2.nodes@.len() == t1.nodes@.len(),
            forall|j: int|
                0 <= j < t1.nodes@.len() && j != node_id ==> (#[trigger] t2.nd(j)) == t1.nd(j),
            exists|pos: int|
                0 <= pos <= t1.nd(node_id).children@.len() && t2.nd(node_id).children@
                    == #[trigger] t1.nd(node_id).children@.insert(pos, (c, new_id)),
            0 <= n < t1.nodes@.len(),
        ensures
            match t1.node_at_from(n, key) {
                Some(m) => t2.node_at_from(n, key) == Some(m),
                None => t2.node_at_from(n, key) is None || t2.node_at_from(n, key) == Some(
                    new_id as int,
                ),
            },
        decreases key.len(),
    {
        if key.len() == 0 {
            return ;
        }
        let c0 = key[0];
        let rest = key.drop_first();
        if n == node_id {
            let t1ch = t1.nd(node_id).children@;
            let t2ch = t2.nd(node_id).children@;
            let pos = choose|pos: int|
                0 <= pos <= t1ch.len() && t2ch == #[trigger] t1ch.insert(pos, (c, new_id));
            assert(forall|k: int|
                0 <= k < t2ch.len() ==> #[trigger] t2ch[k] == (if k < pos {
                    t1ch[k]
                } else if k == pos {
                    (c, new_id)
                } else {
                    t1ch[k - 1]
                }));
            if c0 == c {
                assert(t1.node_at_from(n, key) is None);
                assert(has_child_seq(t2ch, c)) by {
                    assert(t2ch[pos].0 == c);
                }
                let k = choose|k: int| 0 <= k < t2ch.len() && (#[trigger] t2ch[k]).0 == c;
                assert(k == pos) by {
                    if k < pos {
                        assert(t1ch[k].0 == c);
                    }
                    if k > pos {
                        assert(t1ch[k - 1].0 == c);
                    }
                }
                assert(child_seq(t2ch, c) == new_id as int);
                assert(t2.nd(new_id as int).children@ == t1.nd(new_id as int).children@);
                if rest.len() == 0 {
                    assert(t2.node_at_from(new_id as int, rest) == Some(new_id as int));
                    assert(t2.node_at_from(n, key) == Some(new_id as int));
                } else {
                    assert(!has_child_seq(t2.nd(new_id as int).children@, rest[0]));
                    assert(t2.node_at_from(new_id as int, rest) is None);
                    assert(t2.node_at_from(n, key) is None);
                }
            } else {
                if has_child_seq(t1ch, c0) {
                    let k1 = choose|k: int| 0 <= k < t1ch.len() && (#[trigger] t1ch[k]).0 == c0;
                    let k2 = if k1 < pos {
                        k1
                    } else {
                        k1 + 1
                    };
                    assert(t2ch[k2] == t1ch[k1]);
                    assert(has_child_seq(t2ch, c0));
                    let kk = choose|k: int| 0 <= k < t2ch.len() && (#[trigger] t2ch[k]).0 == c0;
                    let kk1 = if kk < pos {
                        kk
                    } else {
                        kk - 1
                    };
                    assert(kk != pos);
                    assert(t2ch[kk] == t1ch[kk1]);
                    assert(kk1 == k1) by {
                        if kk1 < k1 {
                            assert((t1ch[kk1].0 as u32) < (t1ch[k1].0 as u32));
                        }
                        if kk1 > k1 {
                            assert((t1ch[k1].0 as u32) < (t1ch[kk1].0 as u32));
                        }
                    }
                    assert(child_seq(t2ch, c0) == child_seq(t1ch, c0));
                    assert(t1.is_edge(node_id, k1));
                    let ch = t1.edge(node_id, k1).1 as int;
                    assert(child_seq(t1ch, c0) == ch);
                    Self::lemma_walk_after_edge(t1, t2, node_id, c, new_id, ch, rest);
                } else {
                    assert(!has_child_seq(t2ch, c0)) by {
                        if has_child_seq(t2ch, c0) {
                            let k = choose|k: int|
                                0 <= k < t2ch.len() && (#[trigger] t2ch[k]).0 == c0;
                            assert(k != pos);
                            if k < pos {
                                assert(t1ch[k].0 == c0);
                            } else {
                                assert(t1ch[k - 1].0 == c0);
                            }
                        }
                    }
                }
            }
        } else {
            assert(t2.nd(n) == t1.nd(n));
            let ch1 = t1.nd(n).children@;
            if has_child_seq(ch1, c0) {
                let k = choose|k: int| 0 <= k < ch1.len() && (#[trigger] ch1[k]).0 == c0;
                assert(t1.is_edge(n, k));
                let ch = t1.edge(n, k).1 as int;
                assert(child_seq(ch1, c0) == ch);
                Self::lemma_walk_after_edge(t1, t2, node_id, c, new_id, ch, rest);
            }
        }
    }
}

impl<P: PrimaryId> HashSetPrefixTree<P> {
    /// Creates a new, empty `HashSetPrefixTree`: a root node with no
    /// children and no postings.
    pub fn new() -> (r: HashSetPrefixTree<P>)
        ensures
            r.wf(),
            forall|key: Seq<char>| #[trigger] r.ids_at(key) == Set::<P>::empty(),
    {
        let mut nodes: Vec<TreeNode> = Vec::new();
        nodes.push(TreeNode::new(None));
        let r = HashSetPrefixTree::<P> {
            nodes,
            values: Vec::<IdSet<P>>::new(),
            paths: Ghost(Map::<int, Seq<char>>::empty().insert(0, Seq::empty())),
        };
        proof {
            assert forall|key: Seq<char>| #[trigger] r.ids_at(key) == Set::<P>::empty() by {
                if key.len() > 0 {
                    assert(!has_child_seq(r.nd(0).children@, key[0]));
                }
            }
        }
        r
    }

    /// Appends a fresh node — no children, no value slot — to the
    /// arena and returns its index; `path` records the key under which
    /// the caller is about to make it reachable.
    fn create_new_node(&mut self, Ghost(path): Ghost<Seq<char>>) -> (r: usize)
        requires
            old(self).wf(),
        ensures
            final (self).wf(),
            r as int == old(self).nodes@.len(),
            final (self).nodes@.len() == old(self).nodes@.len() + 1,
            forall|j: int|
                0 <= j < old(self).nodes@.len() ==> (#[trigger] final (self).nd(j)) == old(
                    self,
                ).nd(j),
            final (self).nd(r as int).value is None,
            final (self).nd(r as int).children@ == Seq::<(char, usize)>::empty(),
            final (self).values == old(self).values,
            final (self).paths@ == old(self).paths@.insert(r as int, path),
            forall|n: int, k: int|
                final (self).is_edge(n, k) ==> (#[trigger] final (self).edge(n, k)).1 != r,
            forall|n: int, key2: Seq<char>|
                0 <= n < old(self).nodes@.len() ==> #[trigger] final (self).node_at_from(n, key2)
                    == old(self).node_at_from(n, key2),
    {
        let r = self.nodes.len();
        self.nodes.push(TreeNode::new(None));
        proof {
            self.paths@ = self.paths@.insert(r as int, path);
        }
        proof {
            let t1 = *old(self);
            let t2 = *self;
            assert forall|n: int, k: int| t2.is_edge(n, k) implies t1.is_edge(n, k) && (
            #[trigger] t2.edge(n, k)) == t1.edge(n, k) by {
                assert(n < t1.nodes@.len()) by {
                    if n == r {
                        assert(t2.nd(n).children@.len() == 0);
                    }
                }
            }
            assert(t2.wf()) by {
                assert forall|n: int|
                    0 <= n < t2.nodes@.len() implies children_sorted(
                    (#[trigger] t2.nd(n)).children@,
                ) by {
                    if n < r {
                        assert(t2.nd(n) == t1.nd(n));
                    }
                }
                assert forall|n: int|
                    #![trigger t2.nd(n).value]
                    0 <= n < t2.nodes@.len() && t2.nd(n).value is Some implies t2.nd(
                        n,
                    ).value.unwrap() < t2.values@.len() && t2.values@[t2.nd(
                        n,
                    ).value.unwrap() as int].wf() by {
                    assert(n < r);
                    assert(t2.nd(n) == t1.nd(n));
                }
                assert forall|n1: int, n2: int|
                    #![trigger t2.nd(n1).value, t2.nd(n2).value]
                    0 <= n1 < t2.nodes@.len() && 0 <= n2 < t2.nodes@.len() && n1 != n2 && t2.nd(
                        n1,
                    ).value is Some && t2.nd(n2).value is Some implies t2.nd(n1).value.unwrap()
                    != t2.nd(n2).value.unwrap() by {
                    assert(n1 < r && n2 < r);
                    assert(t2.nd(n1) == t1.nd(n1));
                    assert(t2.nd(n2) == t1.nd(n2));
                }
                assert(t2.paths@[0] == Seq::<char>::empty());
            }
            assert forall|n: int, key2: Seq<char>| 0 <= n < t1.nodes@.len() implies #[trigger] t2
                .node_at_from(n, key2) == t1.node_at_from(n, key2) by {
                Self::lemma_node_at_agree(t1, t2, n, key2);
            }
        }
        r
    }

    /// Adds a new identifier to the tree under `key`.
    ///
    /// If no posting exists under this key, a new one is created; if
    /// there is one already, the identifier is added to it.  Postings
    /// of all other keys are untouched.
    pub fn insert(&mut self, key: &str, value: P)
        requires
            old(self).wf(),
        ensures
            final (self).wf(),
            final (self).ids_at(key@) == old(self).ids_at(key@).insert(value),
            forall|k: Seq<char>|
                k != key@ ==> #[trigger] final (self).ids_at(k) == old(self).ids_at(k),
    {
        let len = key.unicode_len();
        proof {
            assert(key@.subrange(0, len as int) =~= key@);
            assert(key@.subrange(0, 0) =~= Seq::<char>::empty());
        }
        let mut node_id: usize = 0;
        let mut i: usize = 0;
        while i < len
            invariant
                self.wf(),
                len == key@.len(),
                0 <= i <= len,
                0 <= node_id < self.nodes@.len(),
                self.values == old(self).values,
                self.node_at(key@.subrange(0, i as int)) == Some(node_id as int),
                forall|k: Seq<char>| #[trigger] self.ids_at(k) == old(self).ids_at(k),
            decreases len - i,
        {
            let c = key.get_char(i);
            proof {
                assert(key@.subrange(0, i + 1) =~= key@.subrange(0, i as int).push(key@[i as int]));
            }
            match self.nodes[node_id].find_child(&c) {
                Some(id) => {
                    proof {
                        let children = self.nd(node_id as int).children@;
                        let k = choose|k: int|
                            0 <= k < children.len() && (#[trigger] children[k]).0 == c;
                        assert(self.is_edge(node_id as int, k));
                        assert(child_seq(children, c) == self.edge(node_id as int, k).1 as int);
                        assert(self.node_at_from(node_id as int, seq![c]) == Some(id as int)) by {
                            assert(seq![c].len() == 1);
                            assert(seq![c][0] == c);
                            assert(has_child_seq(children, c));
                            assert(child_seq(children, c) == id as int);
                            assert(seq![c].drop_first() =~= Seq::<char>::empty());
                            assert(self.node_at_from(id as int, seq![c].drop_first()) == Some(
                                id as int,
                            ));
                        }
                        self.lemma_walk_concat(0, key@.subrange(0, i as int), seq![c]);
                        assert(key@.subrange(0, i as int) + seq![c] =~= key@.subrange(0, i + 1));
                    }
                    node_id = id;
                },
                None => {
                    let ghost t0 = *self;
                    let ghost path = self.paths@[node_id as int].push(c);
                    let new_node_id = self.create_new_node(Ghost(path));
                    let ghost t1 = *self;
                    proof {
                        assert(t1.nd(node_id as int) == t0.nd(node_id as int));
                        assert(children_sorted(t1.nd(node_id as int).children@));
                        assert(!has_child_seq(t1.nd(node_id as int).children@, c));
                    }
                    self.nodes[node_id].insert_child(c, new_node_id);
                    let ghost t2 = *self;
                    proof {
                        let nid = node_id as int;
                        assert(t2.nodes@ == t1.nodes@.update(nid, t2.nodes@[nid]));
                        assert forall|j: int|
                            0 <= j < t1.nodes@.len() && j != nid implies (#[trigger] t2.nd(j))
                            == t1.nd(j) by {}
                        assert(!has_child_seq(t1.nd(nid).children@, c));
                        let t1ch = t1.nd(nid).children@;
                        let t2ch = t2.nd(nid).children@;
                        let pos = choose|pos: int|
                            0 <= pos <= t1ch.len() && t2ch == #[trigger] t1ch.insert(
                                pos,
                                (c, new_node_id),
                            );
                        assert(forall|k: int|
                            0 <= k < t2ch.len() ==> #[trigger] t2ch[k] == (if k < pos {
                                t1ch[k]
                            } else if k == pos {
                                (c, new_node_id)
                            } else {
                                t1ch[k - 1]
                            }));
                        assert(t2.wf()) by {
                            assert forall|n: int|
                                0 <= n < t2.nodes@.len() implies children_sorted(
                                (#[trigger] t2.nd(n)).children@,
                            ) by {
                                if n != nid {
                                    assert(t2.nd(n) == t1.nd(n));
                                }
                            }
                            assert forall|n: int, k: int| t2.is_edge(n, k) implies n < (
                            #[trigger] t2.edge(n, k)).1 < t2.nodes@.len() by {
                                if n == nid {
                                    if k == pos {
                                        assert(t2.edge(n, k) == (c, new_node_id));
                                    } else if k < pos {
                                        assert(t2.edge(n, k) == t1.edge(n, k));
                                        assert(t1.is_edge(n, k));
                                    } else {
                                        assert(t2.edge(n, k) == t1.edge(n, k - 1));
                                        assert(t1.is_edge(n, k - 1));
                                    }
                                } else {
                                    assert(t2.edge(n, k) == t1.edge(n, k));
                                    assert(t1.is_edge(n, k));
                                }
                            }
                            assert forall|n1: int, k1: int, n2: int, k2: int|
                                #![trigger t2.edge(n1, k1), t2.edge(n2, k2)]
                                t2.is_edge(n1, k1) && t2.is_edge(n2, k2) && (n1 != n2 || k1 != k2)
                                    implies t2.edge(n1, k1).1 != t2.edge(n2, k2).1 by {
                                let m1: int = if n1 == nid && k1 == pos {
                                    -1
                                } else if n1 == nid && k1 > pos {
                                    k1 - 1
                                } else {
                                    k1
                                };
                                let m2: int = if n2 == nid && k2 == pos {
                                    -1
                                } else if n2 == nid && k2 > pos {
                                    k2 - 1
                                } else {
                                    k2
                                };
                                if m1 == -1 && m2 == -1 {
                                    assert(n1 == nid && n2 == nid && k1 == pos && k2 == pos);
                                    assert(false);
                                } else if m1 == -1 {
                                    assert(t2.edge(n1, k1).1 == new_node_id);
                                    assert(t2.edge(n2, k2) == t1.edge(n2, m2));
                                    assert(t1.is_edge(n2, m2));
                                    assert(t1.edge(n2, m2).1 != new_node_id);
                                } else if m2 == -1 {
                                    assert(t2.edge(n2, k2).1 == new_node_id);
                                    assert(t2.edge(n1, k1) == t1.edge(n1, m1));
                                    assert(t1.is_edge(n1, m1));
                                    assert(t1.edge(n1, m1).1 != new_node_id);
                                } else {
                                    assert(t2.edge(n1, k1) == t1.edge(n1, m1));
                                    assert(t2.edge(n2, k2) == t1.edge(n2, m2));
                                    assert(t1.is_edge(n1, m1) && t1.is_edge(n2, m2));
                                    assert(n1 != n2 || m1 != m2);
                                }
                            }
                            assert forall|n: int, k: int| t2.is_edge(n, k) implies (
                            #[trigger] t2.edge(n, k)).1 != 0 by {
                                if n == nid && k == pos {
                                    assert(new_node_id as int == t1.nodes@.len() - 1);
                                    assert(t1.nodes@.len() >= 2);
                                } else if n == nid && k > pos {
                                    assert(t2.edge(n, k) == t1.edge(n, k - 1));
                                    assert(t1.is_edge(n, k - 1));
                                } else {
                                    assert(t2.edge(n, k) == t1.edge(n, k));
                                    assert(t1.is_edge(n, k));
                                }
                            }
                            assert forall|n: int|
                                #![trigger t2.nd(n).value]
                                0 <= n < t2.nodes@.len() && t2.nd(n).value is Some implies t2.nd(
                                    n,
                                ).value.unwrap() < t2.values@.len() && t2.values@[t2.nd(
                                    n,
                                ).value.unwrap() as int].wf() by {
                                assert(t2.nd(n).value == t1.nd(n).value);
                            }
                            assert forall|n1: int, n2: int|
                                #![trigger t2.nd(n1).value, t2.nd(n2).value]
                                0 <= n1 < t2.nodes@.len() && 0 <= n2 < t2.nodes@.len() && n1 != n2
                                    && t2.nd(n1).value is Some && t2.nd(n2).value is Some
                                    implies t2.nd(n1).value.unwrap() != t2.nd(
                                    n2,
                                ).value.unwrap() by {
                                assert(t2.nd(n1).value == t1.nd(n1).value);
                                assert(t2.nd(n2).value == t1.nd(n2).value);
                            }
                            assert forall|n: int, k: int| t2.is_edge(n, k) implies t2.paths@[(
                            #[trigger] t2.edge(n, k)).1 as int] == t2.paths@[n].push(
                                t2.edge(n, k).0,
                            ) by {
                                if n == nid && k == pos {
                                    assert(t2.edge(n, k) == (c, new_node_id));
                                    assert(t1.paths@ == t0.paths@.insert(new_node_id as int, path));
                                    assert(t2.paths@[new_node_id as int] == t0.paths@[nid].push(c));
                                    assert(t2.paths@[nid] == t0.paths@[nid]);
                                } else if n == nid && k > pos {
                                    assert(t2.edge(n, k) == t1.edge(n, k - 1));
                                    assert(t1.is_edge(n, k - 1));
                                } else {
                                    assert(t2.edge(n, k) == t1.edge(n, k));
                                    assert(t1.is_edge(n, k));
                                }
                            }
                        }
                        assert forall|k: Seq<char>| #[trigger] t2.ids_at(k) == old(self).ids_at(
                            k,
                        ) by {
                            Self::lemma_walk_after_edge(t1, t2, nid, c, new_node_id, 0, k);
                            assert(t1.node_at(k) == t0.node_at(k));
                            match t1.node_at(k) {
                                Some(m) => {
                                    t1.lemma_node_at_in_range(0, k);
                                    assert(t2.node_at(k) == Some(m));
                                    assert(t2.nd(m).value == t1.nd(m).value);
                                    assert(t2.node_ids(m) == t1.node_ids(m));
                                    t0.lemma_node_at_in_range(0, k);
                                    assert(t1.nd(m) == t0.nd(m));
                                    assert(t1.node_ids(m) == t0.node_ids(m));
                                    assert(t2.ids_at(k) == t0.ids_at(k));
                                },
                                None => {
                                    assert(t0.ids_at(k) == Set::<P>::empty());
                                    if t2.node_at(k) is Some {
                                        assert(t2.node_at(k) == Some(new_node_id as int));
                                        assert(t2.nd(new_node_id as int).value == t1.nd(
                                            new_node_id as int,
                                        ).value);
                                        assert(t2.node_ids(new_node_id as int)
                                            == Set::<P>::empty());
                                    }
                                    assert(t2.ids_at(k) == Set::<P>::empty());
                                },
                            }
                            assert(t0.ids_at(k) == old(self).ids_at(k));
                        }
                        assert(t2.node_at(key@.subrange(0, i + 1)) == Some(new_node_id as int))
                            by {
                            let prefix = key@.subrange(0, i as int);
                            assert(t1.node_at(prefix) == Some(nid));
                            Self::lemma_walk_after_edge(t1, t2, nid, c, new_node_id, 0, prefix);
                            assert(t2.node_at(prefix) == Some(nid));
                            assert(has_child_seq(t2ch, c)) by {
                                assert(t2ch[pos].0 == c);
                            }
                            let kc = choose|k: int|
                                0 <= k < t2ch.len() && (#[trigger] t2ch[k]).0 == c;
                            assert(kc == pos) by {
                                if kc < pos {
                                    assert(t1ch[kc].0 == c);
                                }
                                if kc > pos {
                                    assert(t1ch[kc - 1].0 == c);
                                }
                            }
                            assert(child_seq(t2ch, c) == new_node_id as int);
                            assert(t2.node_at_from(nid, seq![c]) == Some(new_node_id as int)) by {
                                assert(seq![c].len() == 1);
                                assert(seq![c][0] == c);
                                assert(t2.nd(nid).children@ == t2ch);
                                assert(has_child_seq(t2ch, c));
                                assert(seq![c].drop_first() =~= Seq::<char>::empty());
                                assert(t2.node_at_from(new_node_id as int, seq![c].drop_first())
                                    == Some(new_node_id as int));
                            }
                            t2.lemma_walk_concat(0, prefix, seq![c]);
                            assert(prefix + seq![c] =~= key@.subrange(0, i + 1));
                        }
                    }
                    node_id = new_node_id;
                },
            }
            i += 1;
        }
        let ghost tw = *self;
        let ghost nid = node_id as int;
        proof {
            assert(tw.node_at(key@) == Some(nid));
        }
        match self.nodes[node_id].get() {
            Some(vid) => {
                proof {
                    assert(tw.nd(nid).value == Some(vid));
                    assert(tw.values@[vid as int].wf());
                }
                self.values[vid].insert(value);
                proof {
                    let t2 = *self;
                    assert(t2.nodes@ == tw.nodes@);
                    assert(t2.paths@ == tw.paths@);
                    assert(t2.values@ == tw.values@.update(vid as int, t2.values@[vid as int]));
                    assert(t2.values@[vid as int]@ == tw.values@[vid as int]@.insert(value));
                    assert(t2.wf()) by {
                        assert forall|n: int|
                            0 <= n < t2.nodes@.len() implies children_sorted(
                            (#[trigger] t2.nd(n)).children@,
                        ) by {
                            assert(t2.nd(n) == tw.nd(n));
                        }
                        assert forall|n: int, k: int| t2.is_edge(n, k) implies n < (
                        #[trigger] t2.edge(n, k)).1 < t2.nodes@.len() && t2.edge(n, k).1 != 0
                            && t2.paths@[t2.edge(n, k).1 as int] == t2.paths@[n].push(
                            t2.edge(n, k).0,
                        ) by {
                            assert(t2.edge(n, k) == tw.edge(n, k));
                            assert(tw.is_edge(n, k));
                        }
                        assert forall|n1: int, k1: int, n2: int, k2: int|
                            #![trigger t2.edge(n1, k1), t2.edge(n2, k2)]
                            t2.is_edge(n1, k1) && t2.is_edge(n2, k2) && (n1 != n2 || k1 != k2)
                                implies t2.edge(n1, k1).1 != t2.edge(n2, k2).1 by {
                            assert(t2.edge(n1, k1) == tw.edge(n1, k1));
                            assert(t2.edge(n2, k2) == tw.edge(n2, k2));
                            assert(tw.is_edge(n1, k1) && tw.is_edge(n2, k2));
                        }
                        assert forall|n: int|
                            #![trigger t2.nd(n).value]
                            0 <= n < t2.nodes@.len() && t2.nd(n).value is Some implies t2.nd(
                                n,
                            ).value.unwrap() < t2.values@.len() && t2.values@[t2.nd(
                                n,
                            ).value.unwrap() as int].wf() by {
                            assert(t2.nd(n).value == tw.nd(n).value);
                            if t2.nd(n).value.unwrap() != vid {
                                assert(t2.values@[t2.nd(n).value.unwrap() as int]
                                    == tw.values@[t2.nd(n).value.unwrap() as int]);
                            }
                        }
                        assert forall|n1: int, n2: int|
                            #![trigger t2.nd(n1).value, t2.nd(n2).value]
                            0 <= n1 < t2.nodes@.len() && 0 <= n2 < t2.nodes@.len() && n1 != n2
                                && t2.nd(n1).value is Some && t2.nd(n2).value is Some implies t2.nd(
                                n1,
                            ).value.unwrap() != t2.nd(n2).value.unwrap() by {
                            assert(t2.nd(n1).value == tw.nd(n1).value);
                            assert(t2.nd(n2).value == tw.nd(n2).value);
                        }
                    }
                    assert forall|k: Seq<char>| k != key@ implies #[trigger] t2.ids_at(k) == old(
                        self,
                    ).ids_at(k) by {
                        Self::lemma_node_at_agree(tw, t2, 0, k);
                        match tw.node_at(k) {
                            Some(m) => {
                                tw.lemma_node_at_in_range(0, k);
                                assert(m != nid) by {
                                    if m == nid {
                                        tw.lemma_key_unique(k, key@);
                                    }
                                }
                                assert(t2.nd(m).value == tw.nd(m).value);
                                if tw.nd(m).value is Some {
                                    assert(tw.nd(m).value.unwrap() != vid);
                                    assert(t2.values@[tw.nd(m).value.unwrap() as int]
                                        == tw.values@[tw.nd(m).value.unwrap() as int]);
                                }
                                assert(t2.node_ids(m) == tw.node_ids(m));
                            },
                            None => {},
                        }
                        assert(tw.ids_at(k) == old(self).ids_at(k));
                    }
                    assert(t2.ids_at(key@) == old(self).ids_at(key@).insert(value)) by {
                        Self::lemma_node_at_agree(tw, t2, 0, key@);
                        assert(t2.node_at(key@) == Some(nid));
                        assert(t2.node_ids(nid) == tw.node_ids(nid).insert(value));
                        assert(tw.ids_at(key@) == old(self).ids_at(key@));
                    }
                }
            },
            None => {
                let mut new_set: IdSet<P> = IdSet::new();
                new_set.insert(value);
                self.values.push(new_set);
                let vid = self.values.len() - 1;
                self.nodes[node_id].set(vid);
                proof {
                    let t3 = *self;
                    assert(vid as int == tw.values@.len());
                    assert(t3.values@ == tw.values@.push(t3.values@[vid as int]));
                    assert(t3.values@[vid as int]@ == Set::<P>::empty().insert(value));
                    assert(t3.values@[vid as int].wf());
                    assert(t3.nodes@ == tw.nodes@.update(nid, t3.nodes@[nid]));
                    assert(t3.nd(nid).value == Some(vid));
                    assert(t3.nd(nid).children@ == tw.nd(nid).children@);
                    assert(t3.paths@ == tw.paths@);
                    assert forall|j: int|
                        0 <= j < tw.nodes@.len() && j != nid implies (#[trigger] t3.nd(j)) == tw.nd(
                        j,
                    ) by {}
                    assert(t3.wf()) by {
                        assert forall|n: int|
                            0 <= n < t3.nodes@.len() implies children_sorted(
                            (#[trigger] t3.nd(n)).children@,
                        ) by {
                            if n != nid {
                                assert(t3.nd(n) == tw.nd(n));
                            }
                        }
                        assert forall|n: int, k: int| t3.is_edge(n, k) implies n < (
                        #[trigger] t3.edge(n, k)).1 < t3.nodes@.len() && t3.edge(n, k).1 != 0
                            && t3.paths@[t3.edge(n, k).1 as int] == t3.paths@[n].push(
                            t3.edge(n, k).0,
                        ) by {
                            assert(t3.nd(n).children@ == tw.nd(n).children@);
                            assert(t3.edge(n, k) == tw.edge(n, k));
                            assert(tw.is_edge(n, k));
                        }
                        assert forall|n1: int, k1: int, n2: int, k2: int|
                            #![trigger t3.edge(n1, k1), t3.edge(n2, k2)]
                            t3.is_edge(n1, k1) && t3.is_edge(n2, k2) && (n1 != n2 || k1 != k2)
                                implies t3.edge(n1, k1).1 != t3.edge(n2, k2).1 by {
                            assert(t3.nd(n1).children@ == tw.nd(n1).children@);
                            assert(t3.nd(n2).children@ == tw.nd(n2).children@);
                            assert(t3.edge(n1, k1) == tw.edge(n1, k1));
                            assert(t3.edge(n2, k2) == tw.edge(n2, k2));
                            assert(tw.is_edge(n1, k1) && tw.is_edge(n2, k2));
                        }
                        assert forall|n: int|
                            #![trigger t3.nd(n).value]
                            0 <= n < t3.nodes@.len() && t3.nd(n).value is Some implies t3.nd(
                                n,
                            ).value.unwrap() < t3.values@.len() && t3.values@[t3.nd(
                                n,
                            ).value.unwrap() as int].wf() by {
                            if n != nid {
                                assert(t3.nd(n) == tw.nd(n));
                            }
                        }
                        assert forall|n1: int, n2: int|
                            #![trigger t3.nd(n1).value, t3.nd(n2).value]
                            0 <= n1 < t3.nodes@.len() && 0 <= n2 < t3.nodes@.len() && n1 != n2
                                && t3.nd(n1).value is Some && t3.nd(n2).value is Some implies t3.nd(
                                n1,
                            ).value.unwrap() != t3.nd(n2).value.unwrap() by {
                            if n1 != nid {
                                assert(t3.nd(n1) == tw.nd(n1));
                            }
                            if n2 != nid {
                                assert(t3.nd(n2) == tw.nd(n2));
                            }
                        }
                    }
                    assert forall|j: int|
                        0 <= j < tw.nodes@.len() implies (#[trigger] t3.nd(j)).children@ == tw.nd(
                        j,
                    ).children@ by {
                        if j != nid {
                            assert(t3.nd(j) == tw.nd(j));
                        }
                    }
                    assert forall|k: Seq<char>| k != key@ implies #[trigger] t3.ids_at(k) == old(
                        self,
                    ).ids_at(k) by {
                        Self::lemma_node_at_agree(tw, t3, 0, k);
                        match tw.node_at(k) {
                            Some(m) => {
                                tw.lemma_node_at_in_range(0, k);
                                assert(m != nid) by {
                                    if m == nid {
                                        tw.lemma_key_unique(k, key@);
                                    }
                                }
                                assert(t3.nd(m) == tw.nd(m));
                                if tw.nd(m).value is Some {
                                    assert(tw.nd(m).value.unwrap() < tw.values@.len());
                                    assert(t3.values@[tw.nd(m).value.unwrap() as int]
                                        == tw.values@[tw.nd(m).value.unwrap() as int]);
                                }
                                assert(t3.node_ids(m) == tw.node_ids(m));
                            },
                            None => {},
                        }
                        assert(tw.ids_at(k) == old(self).ids_at(k));
                    }
                    assert(t3.ids_at(key@) == old(self).ids_at(key@).insert(value)) by {
                        Self::lemma_node_at_agree(tw, t3, 0, key@);
                        assert(t3.node_at(key@) == Some(nid));
                        assert(t3.node_ids(nid) == Set::<P>::empty().insert(value));
                        assert(tw.node_ids(nid) == Set::<P>::empty());
                        assert(tw.ids_at(key@) == old(self).ids_at(key@));
                        assert(old(self).ids_at(key@) == Set::<P>::empty());
                        assert(Set::<P>::empty().insert(value) =~= Set::<P>::empty().insert(
                            value,
                        ));
                    }
                }
            },
        }
    }

    /// Finds the arena index of the node that `key` reaches, if any.
    fn find_node(&self, key: &str) -> (r: Option<usize>)
        requires
            self.wf(),
        ensures
            match r {
                Some(n) => self.node_at(key@) == Some(n as int),
                None => self.node_at(key@) is None,
            },
    {
        let len = key.unicode_len();
        proof {
            assert(key@.subrange(0, len as int) =~= key@);
        }
        let mut node_id: usize = 0;
        let mut i: usize = 0;
        while i < len
            invariant
                self.wf(),
                len == key@.len(),
                0 <= i <= len,
                0 <= node_id < self.nodes@.len(),
                self.node_at(key@) == self.node_at_from(
                    node_id as int,
                    key@.subrange(i as int, len as int),
                ),
            decreases len - i,
        {
            let c = key.get_char(i);
            let ghost rest = key@.subrange(i as int, len as int);
            proof {
                assert(rest[0] == key@[i as int]);
                assert(rest.drop_first() =~= key@.subrange(i + 1, len as int));
            }
            match self.nodes[node_id].find_child(&c) {
                Some(child) => {
                    proof {
                        let children = self.nd(node_id as int).children@;
                        let k = choose|k: int|
                            0 <= k < children.len() && (#[trigger] children[k]).0 == c;
                        assert(self.is_edge(node_id as int, k));
                        assert(child_seq(children, c) == self.edge(node_id as int, k).1 as int);
                    }
                    node_id = child;
                },
                None => {
                    return None;
                },
            }
            i += 1;
        }
        proof {
            assert(key@.subrange(len as int, len as int) =~= Seq::<char>::empty());
        }
        Some(node_id)
    }

    /// Adds the posting of node `n` and of every node below it to
    /// `out`.
    fn collect_subtree(&self, n: usize, out: &mut IdSet<P>)
        requires
            self.wf(),
            n < self.nodes@.len(),
            old(out).wf(),
        ensures
            final (out).wf(),
            final (out)@ == old(out)@.union(self.subtree_ids(n as int)),
        decreases self.nodes@.len() - n,
    {
        match self.nodes[n].get() {
            Some(value_id) => {
                proof {
                    assert(self.nd(n as int).value == Some(value_id));
                }
                out.union_with(&self.values[value_id]);
            },
            None => {
                proof {
                    assert(self.node_ids(n as int) =~= Set::<P>::empty());
                    assert(out@ =~= old(out)@.union(self.node_ids(n as int)));
                }
            },
        }
        let cn = self.nodes[n].children.len();
        proof {
            assert(self.children_subtree_ids(n as int, 0) =~= Set::<P>::empty());
            assert(out@ =~= old(out)@.union(self.node_ids(n as int)).union(
                self.children_subtree_ids(n as int, 0),
            ));
        }
        let mut k: usize = 0;
        while k < cn
            invariant
                self.wf(),
                n < self.nodes@.len(),
                cn == self.nd(n as int).children@.len(),
                0 <= k <= cn,
                out.wf(),
                out@ == old(out)@.union(self.node_ids(n as int)).union(
                    self.children_subtree_ids(n as int, k as int),
                ),
            decreases cn - k,
        {
            let child = self.nodes[n].children[k].1;
            proof {
                assert(self.is_edge(n as int, k as int));
                assert(child == self.edge(n as int, k as int).1);
            }
            self.collect_subtree(child, out);
            proof {
                assert(out@ =~= old(out)@.union(self.node_ids(n as int)).union(
                    self.children_subtree_ids(n as int, k + 1),
                ));
            }
            k += 1;
        }
        proof {
            assert(out@ =~= old(out)@.union(self.subtree_ids(n as int)));
        }
    }

    /// Gets the union of all postings whose keys share the given
    /// prefix: `None` if the prefix reaches no node at all.
    pub fn get_prefix(&self, prefix: &str) -> (r: Option<IdSet<P>>)
        requires
            self.wf(),
        ensures
            r is Some <==> self.node_at(prefix@) is Some,
            r is Some ==> r.unwrap().wf() && r.unwrap()@ == self.subtree_ids(
                self.node_at(prefix@).unwrap(),
            ),
    {
        match self.find_node(prefix) {
            Some(node_id) => {
                proof {
                    self.lemma_node_at_in_range(0, prefix@);
                }
                let mut result_set: IdSet<P> = IdSet::new();
                self.collect_subtree(node_id, &mut result_set);
                proof {
                    assert(result_set@ =~= self.subtree_ids(node_id as int));
                }
                Some(result_set)
            },
            None => None,
        }
    }

    /// Gets a posting from the tree by exactly matching the key:
    /// `None` if the key reaches no node or the node has no value
    /// slot.
    pub fn get(&self, key: &str) -> (r: Option<IdSet<P>>)
        requires
            self.wf(),
        ensures
            r is Some <==> (self.node_at(key@) is Some && self.has_slot(
                self.node_at(key@).unwrap(),
            )),
            r is Some ==> r.unwrap().wf() && r.unwrap()@ == self.ids_at(key@),
            r is None ==> self.ids_at(key@) == Set::<P>::empty(),
    {
        match self.find_node(key) {
            Some(node_id) => {
                proof {
                    self.lemma_node_at_in_range(0, key@);
                }
                match self.nodes[node_id].get() {
                    Some(value_id) => {
                        proof {
                            assert(self.nd(node_id as int).value == Some(value_id));
                        }
                        Some(self.values[value_id].duplicate())
                    },
                    None => None,
                }
            },
            None => None,
        }
    }
}

} // verus!
