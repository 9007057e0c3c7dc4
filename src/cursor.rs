//! A read-only cursor that walks the tree by handle.

use vstd::prelude::*;
use crate::tree::{Node, Tree};

verus! {

/// A position in a tree: the tree it reads and the handle it stands on.
pub struct NodeTraverse<'a> {
    pub tree: &'a Tree,
    pub cursor: usize,
}

impl Tree {
    /// A cursor standing on the root.
    pub fn traverse(&self) -> (c: NodeTraverse<'_>)
        ensures
            *c.tree == *self,
            c.cursor == self.root,
    {
        NodeTraverse { tree: self, cursor: self.root }
    }
}

impl<'a> NodeTraverse<'a> {
    /// The same cursor moved to handle `h`.
    pub open spec fn at(&self, h: usize) -> NodeTraverse<'a> {
        NodeTraverse { tree: self.tree, cursor: h }
    }

    /// The cursor stands on a node of its tree.
    pub open spec fn on_node(&self) -> bool {
        self.cursor < self.tree.nodes@.len()
    }

    /// The node under the cursor.
    pub open spec fn node(&self) -> Node {
        self.tree.nodes@[self.cursor as int]
    }

    /// Moves the cursor to handle `cursor`.
    pub fn goto(&mut self, cursor: usize)
        ensures
            *final(self) == old(self).at(cursor),
    {
        self.cursor = cursor;
    }

    /// The value of the node under the cursor.
    pub fn data(&self) -> (r: i32)
        requires
            self.on_node(),
        ensures
            r == self.node().data,
    {
        self.cur().unwrap().data
    }

    /// The handle of the left child of the node under the cursor.
    pub fn left(&self) -> (r: Option<usize>)
        requires
            self.on_node(),
        ensures
            r == self.node().left,
    {
        self.cur().unwrap().left
    }

    /// The handle of the right child of the node under the cursor.
    pub fn right(&self) -> (r: Option<usize>)
        requires
            self.on_node(),
        ensures
            r == self.node().right,
    {
        self.cur().unwrap().right
    }

    /// Moves the cursor to the left child of its node.
    pub fn go_left(&mut self)
        requires
            old(self).on_node(),
            old(self).node().left is Some,
        ensures
            *final(self) == old(self).at(old(self).node().left->0),
    {
        self.cursor = self.left().unwrap();
    }

    /// Moves the cursor to the right child of its node.
    pub fn go_right(&mut self)
        requires
            old(self).on_node(),
            old(self).node().right is Some,
        ensures
            *final(self) == old(self).at(old(self).node().right->0),
    {
        self.cursor = self.right().unwrap();
    }

    /// The node under the cursor, if the handle names one.
    pub fn cur(&self) -> (r: Option<&Node>)
        ensures
            self.on_node() ==> r == Some(&self.node()),
            !self.on_node() ==> r is None,
    {
        if self.cursor < self.tree.nodes.len() {
            Some(&self.tree.nodes[self.cursor])
        } else {
            None
        }
    }
}

/// Going to a handle and reading the value there gives that node's value,
/// wherever the cursor stood before.
pub proof fn lemma_goto_then_data<'a>(a: NodeTraverse<'a>, b: NodeTraverse<'a>, h: usize)
    requires
        *a.tree == *b.tree,
        h < a.tree.nodes@.len(),
    ensures
        a.at(h).on_node(),
        a.at(h).node().data == b.at(h).node().data,
        a.at(h).node().data == a.tree.nodes@[h as int].data,
{
}

} // verus!
