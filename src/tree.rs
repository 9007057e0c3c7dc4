//! The node arena and the insertion rule.

use vstd::prelude::*;

verus! {

broadcast use vstd::seq_lib::group_to_multiset_ensures;

/// One node of the arena: a value and the handles of its two children.
pub struct Node {
    pub data: i32,
    pub left: Option<usize>,
    pub right: Option<usize>,
}

impl Node {
    /// A node with no children.
    pub fn new(data: i32) -> (n: Node)
        ensures
            n == (Node { data, left: None, right: None }),
    {
        Node { data: data, left: None, right: None }
    }
}

/// `c` is the handle of a node that stands after the node `h` in the arena.
pub open spec fn child_at(nodes: Seq<Node>, h: int, c: Option<usize>) -> bool {
    c is Some && h < c->0 && c->0 < nodes.len()
}

/// Every child handle points forward, to a node that exists.
pub open spec fn forward_links(nodes: Seq<Node>) -> bool {
    forall|h: int|
        0 <= h < nodes.len() ==> {
            &&& (#[trigger] nodes[h]).left is Some ==> child_at(nodes, h, nodes[h].left)
            &&& nodes[h].right is Some ==> child_at(nodes, h, nodes[h].right)
        }
}

/// The handles of the subtree at `h`, in pre-order: the node, then its left
/// subtree, then its right subtree.
pub open spec fn pre_handles(nodes: Seq<Node>, h: int) -> Seq<int>
    decreases nodes.len() - h,
{
    if 0 <= h < nodes.len() {
        let l = nodes[h].left;
        let r = nodes[h].right;
        let lpart = if child_at(nodes, h, l) {
            pre_handles(nodes, l->0 as int)
        } else {
            Seq::empty()
        };
        let rpart = if child_at(nodes, h, r) {
            pre_handles(nodes, r->0 as int)
        } else {
            Seq::empty()
        };
        seq![h] + lpart + rpart
    } else {
        Seq::empty()
    }
}

/// Node `k` lies in the subtree at `h`.
pub open spec fn in_subtree(nodes: Seq<Node>, h: int, k: int) -> bool {
    pre_handles(nodes, h).contains(k)
}

/// The node below which a value `v` is hung by a walk that starts at `h`,
/// and whether it goes to that node's left.
pub open spec fn attach_point(nodes: Seq<Node>, h: int, v: i32) -> (int, bool)
    decreases nodes.len() - h,
{
    if 0 <= h < nodes.len() {
        if v < nodes[h].data {
            if child_at(nodes, h, nodes[h].left) {
                attach_point(nodes, nodes[h].left->0 as int, v)
            } else {
                (h, true)
            }
        } else {
            if child_at(nodes, h, nodes[h].right) {
                attach_point(nodes, nodes[h].right->0 as int, v)
            } else {
                (h, false)
            }
        }
    } else {
        (h, false)
    }
}

/// The arena after a new leaf holding `v` has been appended and hung below
/// node `p`, on its left side if `go_left`.
pub open spec fn hang(nodes: Seq<Node>, p: int, go_left: bool, v: i32) -> Seq<Node> {
    let n = nodes.len() as usize;
    let old_p = nodes[p];
    let new_p = if go_left {
        Node { data: old_p.data, left: Some(n), right: old_p.right }
    } else {
        Node { data: old_p.data, left: old_p.left, right: Some(n) }
    };
    nodes.update(p, new_p).push(Node { data: v, left: None, right: None })
}

/// The arena after `insert(v)` on a non-empty tree rooted at the first node.
pub open spec fn inserted(nodes: Seq<Node>, v: i32) -> Seq<Node> {
    let (p, go_left) = attach_point(nodes, 0, v);
    hang(nodes, p, go_left, v)
}

/// Every handle in the subtree at `h` is `h` or a later node of the arena.
pub proof fn lemma_pre_handles_range(nodes: Seq<Node>, h: int)
    requires
        forward_links(nodes),
        0 <= h < nodes.len(),
    ensures
        forall|x: int| #[trigger] pre_handles(nodes, h).contains(x) ==> h <= x < nodes.len(),
    decreases nodes.len() - h,
{
    let l = nodes[h].left;
    let r = nodes[h].right;
    if child_at(nodes, h, l) {
        lemma_pre_handles_range(nodes, l->0 as int);
    }
    if child_at(nodes, h, r) {
        lemma_pre_handles_range(nodes, r->0 as int);
    }
    let lpart = if child_at(nodes, h, l) {
        pre_handles(nodes, l->0 as int)
    } else {
        Seq::empty()
    };
    let rpart = if child_at(nodes, h, r) {
        pre_handles(nodes, r->0 as int)
    } else {
        Seq::empty()
    };
    assert(pre_handles(nodes, h) == seq![h] + lpart + rpart);
    assert forall|x: int| #[trigger] pre_handles(nodes, h).contains(x) implies h <= x
        < nodes.len() by {
        let s = pre_handles(nodes, h);
        let i = choose|i: int| 0 <= i < s.len() && s[i] == x;
        if i >= 1 + lpart.len() {
            assert(rpart[i - 1 - lpart.len()] == x);
            assert(rpart.contains(x));
        } else if i >= 1 {
            assert(lpart[i - 1] == x);
            assert(lpart.contains(x));
        }
    }
}

/// Hanging a leaf below `p` adds the new handle to the subtree at `h` once
/// for each time `p` occurs there, and changes no other count.
proof fn lemma_hang_counts(nodes: Seq<Node>, p: int, go_left: bool, v: i32, h: int)
    requires
        forward_links(nodes),
        0 <= p < nodes.len(),
        nodes.len() < usize::MAX,
        go_left ==> nodes[p].left is None,
        !go_left ==> nodes[p].right is None,
        0 <= h < nodes.len(),
    ensures
        forall|x: int|
            #[trigger] pre_handles(hang(nodes, p, go_left, v), h).to_multiset().count(x)
                == pre_handles(nodes, h).to_multiset().count(x) + (if x == nodes.len() {
                pre_handles(nodes, h).to_multiset().count(p)
            } else {
                0
            }),
    decreases nodes.len() - h,
{
    broadcast use vstd::seq_lib::lemma_multiset_commutative;

    let s2 = hang(nodes, p, go_left, v);
    let n = nodes.len() as int;
    let l = nodes[h].left;
    let r = nodes[h].right;
    let l2 = s2[h].left;
    let r2 = s2[h].right;
    let lpart = if child_at(nodes, h, l) {
        pre_handles(nodes, l->0 as int)
    } else {
        Seq::empty()
    };
    let rpart = if child_at(nodes, h, r) {
        pre_handles(nodes, r->0 as int)
    } else {
        Seq::empty()
    };
    let lpart2 = if child_at(s2, h, l2) {
        pre_handles(s2, l2->0 as int)
    } else {
        Seq::empty()
    };
    let rpart2 = if child_at(s2, h, r2) {
        pre_handles(s2, r2->0 as int)
    } else {
        Seq::empty()
    };
    assert(pre_handles(nodes, h) == seq![h] + lpart + rpart);
    assert(pre_handles(s2, h) == seq![h] + lpart2 + rpart2);
    if child_at(nodes, h, l) {
        lemma_hang_counts(nodes, p, go_left, v, l->0 as int);
        lemma_pre_handles_range(nodes, l->0 as int);
    }
    if child_at(nodes, h, r) {
        lemma_hang_counts(nodes, p, go_left, v, r->0 as int);
        lemma_pre_handles_range(nodes, r->0 as int);
    }
    let leaf = pre_handles(s2, n);
    assert(leaf == seq![n]) by {
        assert(s2[n].left is None && s2[n].right is None);
        assert(seq![n] + Seq::<int>::empty() + Seq::<int>::empty() == seq![n]);
    }
    assert(seq![h].to_multiset() == Seq::<int>::empty().push(h).to_multiset()) by {
        assert(seq![h] == Seq::<int>::empty().push(h));
    }
    assert(seq![n].to_multiset() == Seq::<int>::empty().push(n).to_multiset()) by {
        assert(seq![n] == Seq::<int>::empty().push(n));
    }
    if h == p {
        assert(!lpart.contains(p));
        assert(!rpart.contains(p));
        assert(lpart.to_multiset().count(p) == 0);
        assert(rpart.to_multiset().count(p) == 0);
        if go_left {
            assert(lpart2 == leaf);
        } else {
            assert(rpart2 == leaf);
        }
    } else {
        assert(s2[h] == nodes[h]);
    }
    assert forall|x: int|
        #[trigger] pre_handles(s2, h).to_multiset().count(x) == pre_handles(
            nodes,
            h,
        ).to_multiset().count(x) + (if x == n {
            pre_handles(nodes, h).to_multiset().count(p)
        } else {
            0
        }) by {
        assert((seq![h] + lpart2 + rpart2).to_multiset() == (seq![h] + lpart2).to_multiset().add(
            rpart2.to_multiset(),
        ));
        assert((seq![h] + lpart + rpart).to_multiset() == (seq![h] + lpart).to_multiset().add(
            rpart.to_multiset(),
        ));
    }
}

/// Every value in the subtree at `h` lies in the interval of `h`.
proof fn lemma_subtree_within_bounds(t: &Tree, h: int)
    requires
        forward_links(t.nodes@),
        t.bounds_ok(),
        0 <= h < t.nodes@.len(),
    ensures
        forall|k: int|
            #[trigger] in_subtree(t.nodes@, h, k) ==> t.lower@[h] <= t.nodes@[k].data
                < t.upper@[h],
    decreases t.nodes@.len() - h,
{
    let nodes = t.nodes@;
    let l = nodes[h].left;
    let r = nodes[h].right;
    if child_at(nodes, h, l) {
        lemma_subtree_within_bounds(t, l->0 as int);
    }
    if child_at(nodes, h, r) {
        lemma_subtree_within_bounds(t, r->0 as int);
    }
    let lpart = if child_at(nodes, h, l) {
        pre_handles(nodes, l->0 as int)
    } else {
        Seq::empty()
    };
    let rpart = if child_at(nodes, h, r) {
        pre_handles(nodes, r->0 as int)
    } else {
        Seq::empty()
    };
    assert(pre_handles(nodes, h) == seq![h] + lpart + rpart);
    assert forall|k: int| #[trigger] in_subtree(nodes, h, k) implies t.lower@[h]
        <= nodes[k].data < t.upper@[h] by {
        let s = pre_handles(nodes, h);
        let i = choose|i: int| 0 <= i < s.len() && s[i] == k;
        if i >= 1 + lpart.len() {
            assert(rpart[i - 1 - lpart.len()] == k);
            assert(in_subtree(nodes, r->0 as int, k));
        } else if i >= 1 {
            assert(lpart[i - 1] == k);
            assert(in_subtree(nodes, l->0 as int, k));
        }
    }
}

/// A well-formed tree is a binary search tree, with equal values on the
/// right.
pub proof fn lemma_wf_tree_is_bst(t: &Tree)
    requires
        t.wf(),
    ensures
        t.is_bst(),
{
    let nodes = t.nodes@;
    assert forall|h: int, k: int|
        0 <= h < nodes.len() && nodes[h].left is Some && #[trigger] in_subtree(
            nodes,
            nodes[h].left->0 as int,
            k,
        ) implies nodes[k].data < nodes[h].data by {
        assert(nodes[h] == nodes[h]);
        lemma_subtree_within_bounds(t, nodes[h].left->0 as int);
    }
    assert forall|h: int, k: int|
        0 <= h < nodes.len() && nodes[h].right is Some && #[trigger] in_subtree(
            nodes,
            nodes[h].right->0 as int,
            k,
        ) implies nodes[k].data >= nodes[h].data by {
        assert(nodes[h] == nodes[h]);
        lemma_subtree_within_bounds(t, nodes[h].right->0 as int);
    }
}

/// Hanging a leaf at the end of the search walk keeps a tree well formed.
proof fn lemma_hang_wf(t: &Tree, t2: &Tree, p: int, go_left: bool, v: i32)
    requires
        t.wf(),
        t.nodes@.len() < usize::MAX,
        0 <= p < t.nodes@.len(),
        go_left ==> t.nodes@[p].left is None && v < t.nodes@[p].data,
        !go_left ==> t.nodes@[p].right is None && v >= t.nodes@[p].data,
        t.lower@[p] <= v < t.upper@[p],
        t2.root == t.root,
        t2.nodes@ == hang(t.nodes@, p, go_left, v),
        t2.lower@ == t.lower@.push(
            if go_left {
                t.lower@[p]
            } else {
                t.nodes@[p].data as int
            },
        ),
        t2.upper@ == t.upper@.push(
            if go_left {
                t.nodes@[p].data as int
            } else {
                t.upper@[p]
            },
        ),
    ensures
        t2.wf(),
        t2.values() == t.values().push(v),
{
    let nodes = t.nodes@;
    let s2 = t2.nodes@;
    let n = nodes.len() as int;
    assert forall|h: int| 0 <= h < s2.len() implies {
        &&& (#[trigger] s2[h]).left is Some ==> child_at(s2, h, s2[h].left)
        &&& s2[h].right is Some ==> child_at(s2, h, s2[h].right)
    } by {
        if h < n {
            assert(nodes[h] == nodes[h]);
        }
    }
    assert forall|h: int| 0 <= h < s2.len() implies {
        &&& t2.lower@[h] <= (#[trigger] s2[h]).data < t2.upper@[h]
        &&& s2[h].left is Some ==> t2.lower@[s2[h].left->0 as int] == t2.lower@[h]
            && t2.upper@[s2[h].left->0 as int] == s2[h].data
        &&& s2[h].right is Some ==> t2.lower@[s2[h].right->0 as int] == s2[h].data
            && t2.upper@[s2[h].right->0 as int] == t2.upper@[h]
    } by {
        if h < n {
            assert(nodes[h] == nodes[h]);
        }
    }
    lemma_hang_counts(nodes, p, go_left, v, 0);
    lemma_pre_handles_range(nodes, 0);
    assert forall|k: int| 0 <= k < s2.len() implies #[trigger] pre_handles(
        s2,
        0,
    ).to_multiset().count(k) == 1 by {
        if k == n {
            assert(!pre_handles(nodes, 0).contains(n));
            assert(pre_handles(nodes, 0).to_multiset().count(p) == 1);
        }
        assert(pre_handles(s2, 0).to_multiset().count(k) == pre_handles(
            nodes,
            0,
        ).to_multiset().count(k) + (if k == n {
            pre_handles(nodes, 0).to_multiset().count(p)
        } else {
            0
        }));
    }
    assert(t2.values() == t.values().push(v));
}

/// A binary search tree whose nodes live in one growable arena and refer to
/// their children by index.
pub struct Tree {
    pub nodes: Vec<Node>,
    pub root: usize,
    /// For each node, the least value its position admits.
    pub lower: Ghost<Seq<int>>,
    /// For each node, one past the greatest value its position admits.
    pub upper: Ghost<Seq<int>>,
}

impl Tree {
    /// The values of the nodes, in the order they were inserted.
    pub open spec fn values(&self) -> Seq<i32> {
        self.nodes@.map_values(|n: Node| n.data)
    }

    /// Each node of the arena is reached from the root exactly once.
    pub open spec fn single_parent(&self) -> bool {
        forall|k: int|
            0 <= k < self.nodes@.len() ==> #[trigger] pre_handles(self.nodes@, 0).to_multiset().count(k)
                == 1
    }

    /// Every node's value lies in the interval that its place in the tree
    /// admits; a child's interval is its parent's, cut at the parent's value.
    pub open spec fn bounds_ok(&self) -> bool {
        let nodes = self.nodes@;
        let lo = self.lower@;
        let hi = self.upper@;
        &&& lo.len() == nodes.len()
        &&& hi.len() == nodes.len()
        &&& nodes.len() > 0 ==> lo[0] <= i32::MIN && hi[0] > i32::MAX
        &&& forall|h: int|
            0 <= h < nodes.len() ==> {
                &&& lo[h] <= (#[trigger] nodes[h]).data < hi[h]
                &&& nodes[h].left is Some ==> lo[nodes[h].left->0 as int] == lo[h]
                    && hi[nodes[h].left->0 as int] == nodes[h].data
                &&& nodes[h].right is Some ==> lo[nodes[h].right->0 as int] == nodes[h].data
                    && hi[nodes[h].right->0 as int] == hi[h]
            }
    }

    /// The tree is well formed: the root is the first node, links point
    /// forward, each node has one parent, and values respect the search order.
    pub open spec fn wf(&self) -> bool {
        &&& self.root == 0
        &&& forward_links(self.nodes@)
        &&& self.single_parent()
        &&& self.bounds_ok()
    }

    /// Values in a node's left subtree are less than its value; values in its
    /// right subtree are greater or equal.
    pub open spec fn is_bst(&self) -> bool {
        let nodes = self.nodes@;
        &&& forall|h: int, k: int|
            0 <= h < nodes.len() && nodes[h].left is Some && #[trigger] in_subtree(
                nodes,
                nodes[h].left->0 as int,
                k,
            ) ==> nodes[k].data < nodes[h].data
        &&& forall|h: int, k: int|
            0 <= h < nodes.len() && nodes[h].right is Some && #[trigger] in_subtree(
                nodes,
                nodes[h].right->0 as int,
                k,
            ) ==> nodes[k].data >= nodes[h].data
    }

    /// An empty tree.
    pub fn new() -> (t: Tree)
        ensures
            t.wf(),
            t.nodes@.len() == 0,
    {
        Tree { nodes: Vec::new(), root: 0, lower: Ghost(Seq::empty()), upper: Ghost(Seq::empty()) }
    }

    /// Adds `data` as a new leaf: walking down from the root, it goes left
    /// of a node whose value is greater and right otherwise, and hangs below
    /// the first node that has no child on that side.
    pub fn insert(&mut self, data: i32)
        requires
            old(self).wf(),
            old(self).nodes@.len() < usize::MAX,
        ensures
            final(self).wf(),
            final(self).is_bst(),
            final(self).values() == old(self).values().push(data),
            old(self).nodes@.len() == 0 ==> final(self).nodes@ == seq![
                Node { data, left: None, right: None },
            ],
            old(self).nodes@.len() > 0 ==> final(self).nodes@ == inserted(old(self).nodes@, data),
    {
        let ghost before = *self;
        let new_index = self.nodes.len();
        self.nodes.push(Node::new(data));
        if new_index == 0 {
            self.root = 0;
            let ghost lo = seq![i32::MIN as int];
            let ghost hi = seq![i32::MAX as int + 1];
            self.lower = Ghost(lo);
            self.upper = Ghost(hi);
            proof {
                let only = self.nodes@;
                assert(pre_handles(only, 0) == seq![0int]) by {
                    assert(seq![0int] + Seq::<int>::empty() + Seq::<int>::empty() == seq![0int]);
                }
                assert(seq![0int] == Seq::<int>::empty().push(0));
                assert(self.values() == before.values().push(data));
                lemma_wf_tree_is_bst(self);
            }
            return;
        }
        let mut cursor: usize = self.root;
        loop
            invariant
                before == *old(self),
                before.wf(),
                new_index == before.nodes@.len(),
                new_index < usize::MAX,
                self.nodes@ == before.nodes@.push(Node { data, left: None, right: None }),
                self.root == before.root,
                self.lower == before.lower,
                self.upper == before.upper,
                cursor < new_index,
                attach_point(before.nodes@, cursor as int, data) == attach_point(
                    before.nodes@,
                    0,
                    data,
                ),
                before.lower@[cursor as int] <= data < before.upper@[cursor as int],
            decreases new_index - cursor,
        {
            let c_data = self.nodes[cursor].data;
            let c_left = self.nodes[cursor].left;
            let c_right = self.nodes[cursor].right;
            proof {
                assert(before.nodes@[cursor as int] == self.nodes@[cursor as int]);
            }
            if data < c_data {
                match c_left {
                    Some(l) => {
                        cursor = l;
                    },
                    None => {
                        self.nodes.set(
                            cursor,
                            Node { data: c_data, left: Some(new_index), right: c_right },
                        );
                        let ghost lo = before.lower@.push(before.lower@[cursor as int]);
                        let ghost hi = before.upper@.push(c_data as int);
                        self.lower = Ghost(lo);
                        self.upper = Ghost(hi);
                        proof {
                            assert(self.nodes@ == hang(before.nodes@, cursor as int, true, data));
                            lemma_hang_wf(&before, self, cursor as int, true, data);
                            lemma_wf_tree_is_bst(self);
                        }
                        return;
                    },
                }
            } else {
                match c_right {
                    Some(r) => {
                        cursor = r;
                    },
                    None => {
                        self.nodes.set(
                            cursor,
                            Node { data: c_data, left: c_left, right: Some(new_index) },
                        );
                        let ghost lo = before.lower@.push(c_data as int);
                        let ghost hi = before.upper@.push(before.upper@[cursor as int]);
                        self.lower = Ghost(lo);
                        self.upper = Ghost(hi);
                        proof {
                            assert(self.nodes@ == hang(before.nodes@, cursor as int, false, data));
                            lemma_hang_wf(&before, self, cursor as int, false, data);
                            lemma_wf_tree_is_bst(self);
                        }
                        return;
                    },
                }
            }
        }
    }
}

} // verus!
