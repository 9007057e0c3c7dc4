//! Depth-first traversals that replace recursion by an explicit stack of
//! crumbs, each recording the side taken below a node.

use vstd::prelude::*;
use crate::tree::{Node, Tree, child_at, forward_links, pre_handles};

verus! {

broadcast use {vstd::seq_lib::group_to_multiset_ensures, vstd::multiset::group_multiset_axioms};

/// The way down from a node during a walk.
pub enum TraversalCrumb {
    TookLeft(usize),
    TookRight(usize),
}

/// The pre-order handles of the child `c` of `h`, or nothing if there is no
/// such child.
pub open spec fn pre_below(nodes: Seq<Node>, h: int, c: Option<usize>) -> Seq<int> {
    if child_at(nodes, h, c) {
        pre_handles(nodes, c->0 as int)
    } else {
        Seq::empty()
    }
}

/// The handles of the subtree at `h`, in post-order: the left subtree, then
/// the right subtree, then the node.
pub open spec fn post_handles(nodes: Seq<Node>, h: int) -> Seq<int>
    decreases nodes.len() - h,
{
    if 0 <= h < nodes.len() {
        let l = nodes[h].left;
        let r = nodes[h].right;
        let lpart = if child_at(nodes, h, l) {
            post_handles(nodes, l->0 as int)
        } else {
            Seq::empty()
        };
        let rpart = if child_at(nodes, h, r) {
            post_handles(nodes, r->0 as int)
        } else {
            Seq::empty()
        };
        lpart + rpart + seq![h]
    } else {
        Seq::empty()
    }
}

/// The post-order handles of the child `c` of `h`, or nothing if there is no
/// such child.
pub open spec fn post_below(nodes: Seq<Node>, h: int, c: Option<usize>) -> Seq<int> {
    if child_at(nodes, h, c) {
        post_handles(nodes, c->0 as int)
    } else {
        Seq::empty()
    }
}

/// The values of the nodes at handles `hs`, in that order.
pub open spec fn values_at(nodes: Seq<Node>, hs: Seq<int>) -> Seq<i32> {
    hs.map_values(|k: int| nodes[k].data)
}

/// The handle a crumb was left at.
pub open spec fn crumb_handle(c: TraversalCrumb) -> usize {
    match c {
        TraversalCrumb::TookLeft(h) => h,
        TraversalCrumb::TookRight(h) => h,
    }
}

/// Every crumb was left at a node of the arena.
pub open spec fn crumbs_ok(nodes: Seq<Node>, crumbs: Seq<TraversalCrumb>) -> bool {
    forall|i: int| 0 <= i < crumbs.len() ==> crumb_handle(#[trigger] crumbs[i]) < nodes.len()
}

/// What a pre-order walk still owes once the current subtree is done: for
/// each crumb from the top, the right subtree of a node left by its left side.
pub open spec fn pre_pending(nodes: Seq<Node>, crumbs: Seq<TraversalCrumb>) -> Seq<int>
    decreases crumbs.len(),
{
    if crumbs.len() == 0 {
        Seq::empty()
    } else {
        let rest = pre_pending(nodes, crumbs.drop_last());
        match crumbs.last() {
            TraversalCrumb::TookLeft(h) => pre_below(nodes, h as int, nodes[h as int].right) + rest,
            TraversalCrumb::TookRight(_) => rest,
        }
    }
}

/// What a post-order walk still owes once the current subtree is done: for
/// each crumb from the top, the right subtree of a node left by its left
/// side, and then the node itself.
pub open spec fn post_pending(nodes: Seq<Node>, crumbs: Seq<TraversalCrumb>) -> Seq<int>
    decreases crumbs.len(),
{
    if crumbs.len() == 0 {
        Seq::empty()
    } else {
        let rest = post_pending(nodes, crumbs.drop_last());
        match crumbs.last() {
            TraversalCrumb::TookLeft(h) => post_below(nodes, h as int, nodes[h as int].right)
                + seq![h as int] + rest,
            TraversalCrumb::TookRight(h) => seq![h as int] + rest,
        }
    }
}

impl Tree {
    /// The values of the tree in pre-order.
    pub open spec fn pre_order_values(&self) -> Seq<i32> {
        values_at(self.nodes@, pre_handles(self.nodes@, self.root as int))
    }

    /// The values of the tree in post-order.
    pub open spec fn post_order_values(&self) -> Seq<i32> {
        values_at(self.nodes@, post_handles(self.nodes@, self.root as int))
    }
}

/// The values of a non-empty tree in pre-order: each node, then its left
/// subtree, then its right subtree. The walk keeps its way back on a stack of
/// crumbs instead of recursing. An empty tree has no root to start from, so
/// the tree must hold at least one node.
pub fn pre_order(t: &Tree) -> (out: Vec<i32>)
    requires
        t.wf(),
        t.nodes@.len() > 0,
    ensures
        out@ == t.pre_order_values(),
{
    let ghost nodes = t.nodes@;
    let ghost all = pre_handles(nodes, 0);
    let ghost mut visited: Seq<int> = Seq::empty();
    let mut cur = t.traverse();
    let mut out: Vec<i32> = Vec::new();
    let mut crumbs: Vec<TraversalCrumb> = Vec::new();
    let mut done = false;
    while !done
        invariant
            t.wf(),
            nodes == t.nodes@,
            all == pre_handles(nodes, 0),
            *cur.tree == *t,
            cur.on_node(),
            crumbs_ok(nodes, crumbs@),
            out@ == values_at(nodes, visited),
            !done ==> visited + pre_handles(nodes, cur.cursor as int) + pre_pending(
                nodes,
                crumbs@,
            ) == all,
            done ==> visited == all,
        decreases
            (if done {
                0
            } else {
                pre_handles(nodes, cur.cursor as int).len() + pre_pending(nodes, crumbs@).len() + 1
            }),
    {
        let ghost h = cur.cursor as int;
        let ghost before = visited;
        proof {
            assert(nodes[h] == nodes[h]);
            assert(pre_handles(nodes, h) == seq![h] + pre_below(nodes, h, nodes[h].left)
                + pre_below(nodes, h, nodes[h].right));
        }
        out.push(cur.data());
        proof {
            visited = visited.push(h);
            assert(out@ == values_at(nodes, visited));
        }
        if cur.left().is_some() {
            let ghost old_crumbs = crumbs@;
            crumbs.push(TraversalCrumb::TookLeft(cur.cursor));
            cur.go_left();
            proof {
                assert(crumbs@.drop_last() == old_crumbs);
                assert(visited + pre_handles(nodes, cur.cursor as int) + pre_pending(nodes, crumbs@)
                    == before + pre_handles(nodes, h) + pre_pending(nodes, old_crumbs));
            }
        } else if cur.right().is_some() {
            let ghost old_crumbs = crumbs@;
            crumbs.push(TraversalCrumb::TookRight(cur.cursor));
            cur.go_right();
            proof {
                assert(crumbs@.drop_last() == old_crumbs);
                assert(visited + pre_handles(nodes, cur.cursor as int) + pre_pending(nodes, crumbs@)
                    == before + pre_handles(nodes, h) + pre_pending(nodes, old_crumbs));
            }
        } else {
            proof {
                assert(visited + pre_pending(nodes, crumbs@) == before + pre_handles(nodes, h)
                    + pre_pending(nodes, crumbs@));
            }
            let mut found = false;
            while !found && crumbs.len() > 0
                invariant
                    t.wf(),
                    nodes == t.nodes@,
                    *cur.tree == *t,
                    cur.on_node(),
                    crumbs_ok(nodes, crumbs@),
                    found ==> crumbs@.len() > 0,
                    !found ==> visited + pre_pending(nodes, crumbs@) == all,
                    found ==> visited + pre_handles(nodes, cur.cursor as int) + pre_pending(
                        nodes,
                        crumbs@,
                    ) == all,
                decreases crumbs@.len() + (if found {
                    0int
                } else {
                    1
                }),
            {
                let ghost old_crumbs = crumbs@;
                let crumb = crumbs.pop().unwrap();
                proof {
                    assert(old_crumbs[old_crumbs.len() - 1] == crumb);
                    assert(crumbs@ == old_crumbs.drop_last());
                }
                match crumb {
                    TraversalCrumb::TookLeft(index) => {
                        cur.goto(index);
                        proof {
                            assert(nodes[index as int] == nodes[index as int]);
                        }
                        if cur.right().is_some() {
                            crumbs.push(TraversalCrumb::TookRight(cur.cursor));
                            cur.go_right();
                            found = true;
                            proof {
                                assert(crumbs@.drop_last() == old_crumbs.drop_last());
                                assert(visited + pre_handles(nodes, cur.cursor as int)
                                    + pre_pending(nodes, crumbs@) == visited + pre_pending(
                                    nodes,
                                    old_crumbs,
                                ));
                            }
                        } else {
                            proof {
                                assert(pre_pending(nodes, old_crumbs) == pre_pending(
                                    nodes,
                                    crumbs@,
                                ));
                            }
                        }
                    },
                    TraversalCrumb::TookRight(index) => {
                        cur.goto(index);
                    },
                }
            }
            if !found {
                done = true;
                proof {
                    assert(visited + Seq::<int>::empty() == visited);
                }
            }
        }
    }
    out
}

/// The values of a non-empty tree in post-order: each node's left subtree,
/// then its right subtree, then the node. Like `pre_order`, it keeps its way
/// back on a stack of crumbs, and the tree must hold at least one node.
pub fn post_order(t: &Tree) -> (out: Vec<i32>)
    requires
        t.wf(),
        t.nodes@.len() > 0,
    ensures
        out@ == t.post_order_values(),
{
    let ghost nodes = t.nodes@;
    let ghost all = post_handles(nodes, 0);
    let ghost mut visited: Seq<int> = Seq::empty();
    let mut cur = t.traverse();
    let mut out: Vec<i32> = Vec::new();
    let mut crumbs: Vec<TraversalCrumb> = Vec::new();
    let mut done = false;
    while !done
        invariant
            t.wf(),
            nodes == t.nodes@,
            all == post_handles(nodes, 0),
            *cur.tree == *t,
            cur.on_node(),
            crumbs_ok(nodes, crumbs@),
            out@ == values_at(nodes, visited),
            !done ==> visited + post_handles(nodes, cur.cursor as int) + post_pending(
                nodes,
                crumbs@,
            ) == all,
            done ==> visited == all,
        decreases
            (if done {
                0
            } else {
                post_handles(nodes, cur.cursor as int).len() + post_pending(nodes, crumbs@).len()
                    + 1
            }),
            nodes.len() - cur.cursor,
    {
        let ghost h = cur.cursor as int;
        proof {
            assert(nodes[h] == nodes[h]);
            assert(post_handles(nodes, h) == post_below(nodes, h, nodes[h].left) + post_below(
                nodes,
                h,
                nodes[h].right,
            ) + seq![h]);
        }
        if cur.left().is_some() {
            let ghost old_crumbs = crumbs@;
            crumbs.push(TraversalCrumb::TookLeft(cur.cursor));
            cur.go_left();
            proof {
                assert(crumbs@.drop_last() == old_crumbs);
                assert(post_handles(nodes, cur.cursor as int) + post_pending(nodes, crumbs@)
                    == post_handles(nodes, h) + post_pending(nodes, old_crumbs));
            }
        } else if cur.right().is_some() {
            let ghost old_crumbs = crumbs@;
            crumbs.push(TraversalCrumb::TookRight(cur.cursor));
            cur.go_right();
            proof {
                assert(crumbs@.drop_last() == old_crumbs);
                assert(post_handles(nodes, cur.cursor as int) + post_pending(nodes, crumbs@)
                    == post_handles(nodes, h) + post_pending(nodes, old_crumbs));
            }
        } else {
            let ghost before = visited;
            out.push(cur.data());
            proof {
                visited = visited.push(h);
                assert(out@ == values_at(nodes, visited));
                assert(visited + post_pending(nodes, crumbs@) == before + post_handles(nodes, h)
                    + post_pending(nodes, crumbs@));
            }
            let mut found = false;
            while !found && crumbs.len() > 0
                invariant
                    t.wf(),
                    nodes == t.nodes@,
                    *cur.tree == *t,
                    cur.on_node(),
                    crumbs_ok(nodes, crumbs@),
                    out@ == values_at(nodes, visited),
                    visited.len() > before.len(),
                    found ==> crumbs@.len() > 0,
                    !found ==> visited + post_pending(nodes, crumbs@) == all,
                    found ==> visited + post_handles(nodes, cur.cursor as int) + post_pending(
                        nodes,
                        crumbs@,
                    ) == all,
                decreases crumbs@.len() + (if found {
                    0int
                } else {
                    1
                }),
            {
                let ghost old_crumbs = crumbs@;
                let ghost seen = visited;
                let crumb = crumbs.pop().unwrap();
                proof {
                    assert(old_crumbs[old_crumbs.len() - 1] == crumb);
                    assert(crumbs@ == old_crumbs.drop_last());
                }
                match crumb {
                    TraversalCrumb::TookLeft(index) => {
                        cur.goto(index);
                        proof {
                            assert(nodes[index as int] == nodes[index as int]);
                        }
                        if cur.right().is_some() {
                            crumbs.push(TraversalCrumb::TookRight(cur.cursor));
                            cur.go_right();
                            found = true;
                            proof {
                                assert(crumbs@.drop_last() == old_crumbs.drop_last());
                                assert(visited + post_handles(nodes, cur.cursor as int)
                                    + post_pending(nodes, crumbs@) == visited + post_pending(
                                    nodes,
                                    old_crumbs,
                                ));
                            }
                        } else {
                            out.push(cur.data());
                            proof {
                                visited = visited.push(index as int);
                                assert(out@ == values_at(nodes, visited));
                                assert(visited + post_pending(nodes, crumbs@) == seen
                                    + post_pending(nodes, old_crumbs));
                            }
                        }
                    },
                    TraversalCrumb::TookRight(index) => {
                        cur.goto(index);
                        out.push(cur.data());
                        proof {
                            visited = visited.push(index as int);
                            assert(out@ == values_at(nodes, visited));
                            assert(visited + post_pending(nodes, crumbs@) == seen + post_pending(
                                nodes,
                                old_crumbs,
                            ));
                        }
                    },
                }
            }
            if !found {
                done = true;
                proof {
                    assert(visited + Seq::<int>::empty() == visited);
                }
            }
        }
    }
    out
}

/// A subtree holds the same handles, as often, in post-order as in
/// pre-order.
proof fn lemma_post_pre_same_handles(nodes: Seq<Node>, h: int)
    requires
        forward_links(nodes),
        0 <= h < nodes.len(),
    ensures
        post_handles(nodes, h).to_multiset() == pre_handles(nodes, h).to_multiset(),
    decreases nodes.len() - h,
{
    broadcast use vstd::seq_lib::lemma_multiset_commutative;

    let l = nodes[h].left;
    let r = nodes[h].right;
    if child_at(nodes, h, l) {
        lemma_post_pre_same_handles(nodes, l->0 as int);
    }
    if child_at(nodes, h, r) {
        lemma_post_pre_same_handles(nodes, r->0 as int);
    }
    let pl = pre_below(nodes, h, l);
    let pr = pre_below(nodes, h, r);
    let ql = post_below(nodes, h, l);
    let qr = post_below(nodes, h, r);
    assert(pre_handles(nodes, h) == seq![h] + pl + pr);
    assert(post_handles(nodes, h) == ql + qr + seq![h]);
    assert((seq![h] + pl + pr).to_multiset() =~= seq![h].to_multiset().add(pl.to_multiset()).add(
        pr.to_multiset(),
    ));
    assert((ql + qr + seq![h]).to_multiset() =~= ql.to_multiset().add(qr.to_multiset()).add(
        seq![h].to_multiset(),
    ));
}

/// Mapping two sequences that hold the same elements, as often, gives two
/// sequences that hold the same elements, as often.
proof fn lemma_map_keeps_multiset(a: Seq<int>, b: Seq<int>, f: spec_fn(int) -> i32)
    requires
        a.to_multiset() == b.to_multiset(),
    ensures
        a.map_values(f).to_multiset() == b.map_values(f).to_multiset(),
    decreases a.len(),
{
    if a.len() == 0 {
        assert(b.to_multiset().len() == 0);
        assert(a.map_values(f) =~= Seq::<i32>::empty());
        assert(b.map_values(f) =~= Seq::<i32>::empty());
    } else {
        let x = a.last();
        let a1 = a.drop_last();
        assert(a1.push(x) == a);
        assert(a.to_multiset().count(x) > 0);
        assert(b.contains(x));
        let i = choose|i: int| 0 <= i < b.len() && b[i] == x;
        let b1 = b.remove(i);
        assert(a1.to_multiset() =~= b1.to_multiset());
        lemma_map_keeps_multiset(a1, b1, f);
        assert(a.map_values(f) =~= a1.map_values(f).push(f(x)));
        assert(b.map_values(f).remove(i) =~= b1.map_values(f));
        assert(b.map_values(f)[i] == f(x));
        assert(b.map_values(f).to_multiset().count(f(x)) > 0);
        assert(a.map_values(f).to_multiset() =~= b.map_values(f).to_multiset());
    }
}

/// Pre-order and post-order each visit every inserted value exactly once:
/// both hold the tree's values, each as often as it was inserted.
pub proof fn lemma_traversals_visit_each_once(t: &Tree)
    requires
        t.wf(),
        t.nodes@.len() > 0,
    ensures
        t.pre_order_values().to_multiset() == t.values().to_multiset(),
        t.post_order_values().to_multiset() == t.values().to_multiset(),
{
    let nodes = t.nodes@;
    let n = nodes.len();
    let every = Seq::new(n, |i: int| i);
    let f = |k: int| nodes[k].data;
    let pre = pre_handles(nodes, 0);
    crate::tree::lemma_pre_handles_range(nodes, 0);
    assert(every.no_duplicates());
    every.lemma_multiset_has_no_duplicates();
    assert forall|x: int| #[trigger] pre.to_multiset().count(x) == every.to_multiset().count(x) by {
        if 0 <= x < n {
            assert(every[x] == x);
            assert(every.contains(x));
        } else {
            assert(!pre.contains(x));
            assert(!every.contains(x));
        }
    }
    assert(pre.to_multiset() =~= every.to_multiset());
    lemma_post_pre_same_handles(nodes, 0);
    lemma_map_keeps_multiset(pre, every, f);
    lemma_map_keeps_multiset(post_handles(nodes, 0), every, f);
    assert(t.values() =~= every.map_values(f));
}

/// A tree of one node lists that node's value, alone, in both orders.
pub proof fn lemma_single_node_orders(t: &Tree)
    requires
        t.wf(),
        t.nodes@.len() == 1,
    ensures
        t.pre_order_values() == seq![t.nodes@[0].data],
        t.post_order_values() == seq![t.nodes@[0].data],
{
    let nodes = t.nodes@;
    assert(nodes[0] == nodes[0]);
    assert(pre_handles(nodes, 0) == seq![0int]) by {
        assert(seq![0int] + Seq::<int>::empty() + Seq::<int>::empty() == seq![0int]);
    }
    assert(post_handles(nodes, 0) == seq![0int]) by {
        assert(Seq::<int>::empty() + Seq::<int>::empty() + seq![0int] == seq![0int]);
    }
    assert(t.pre_order_values() =~= seq![nodes[0].data]);
    assert(t.post_order_values() =~= seq![nodes[0].data]);
}

} // verus!
