use vstd::prelude::*;

use crate::arena::{arena_insert, find_at, node_ok, shape_at};
use crate::shape::{Shape, inorder, shape_insert};
use crate::tree::BinarySearchTree;

verus! {

/// One of the three links a cursor can follow from its node.
#[derive(Clone, Copy, Debug, PartialEq, Eq, Structural)]
pub enum Step {
    Parent,
    Left,
    Right,
}

/// Why a cursor could not insert.
#[derive(Clone, Copy, Debug, PartialEq, Eq, Structural)]
pub enum CursorError {
    /// The cursor points at nothing.
    Unbound,
    /// The cursor's index names no node of the tree at hand.
    Stale,
}

/// A movable position in a tree: the index of a node, or nothing. It owns
/// nothing and shares nothing with other cursors; every operation names the
/// tree it works on, and an index that does not resolve there reads as
/// nothing.
#[derive(Clone, Copy, Debug, PartialEq, Eq, Structural)]
pub struct BSTNodeCursor {
    node: Option<usize>,
}

impl View for BSTNodeCursor {
    type V = Option<usize>;

    closed spec fn view(&self) -> Option<usize> {
        self.node
    }
}

impl BinarySearchTree {
    /// `pos` names a node of this tree.
    pub open spec fn resolves(&self, pos: Option<usize>) -> bool {
        pos is Some && pos.unwrap() < self@.nodes.len()
    }

    /// The value at `pos`, absent where `pos` names no node of this tree.
    pub open spec fn value_at(&self, pos: Option<usize>) -> Option<i32> {
        if self.resolves(pos) {
            Some(self@.nodes[pos.unwrap() as int].data)
        } else {
            None
        }
    }

    /// Where a cursor at `pos` lands after following the link `s`.
    pub open spec fn neighbour(&self, pos: Option<usize>, s: Step) -> Option<usize> {
        if self.resolves(pos) {
            let n = self@.nodes[pos.unwrap() as int];
            match s {
                Step::Parent => n.parent,
                Step::Left => n.left,
                Step::Right => n.right,
            }
        } else {
            None
        }
    }

    /// Where a cursor at `pos` lands after searching for `d`.
    pub open spec fn search(&self, pos: Option<usize>, d: i32) -> Option<usize> {
        if self.resolves(pos) {
            find_at(self@.nodes, pos.unwrap() as int, d)
        } else {
            None
        }
    }

    /// A cursor at the root, unbound when the tree is empty.
    pub fn cursor(&self) -> (r: BSTNodeCursor)
        ensures
            r@ == self@.root,
    {
        BSTNodeCursor { node: self.root() }
    }
}

impl BSTNodeCursor {
    /// The value under the cursor, absent when the cursor is unbound or its
    /// index names no node of `tree`.
    pub fn data(&self, tree: &BinarySearchTree) -> (r: Option<i32>)
        ensures
            r == tree.value_at(self@),
    {
        match self.node {
            Some(i) => match tree.resolve(i) {
                Some(n) => Some(n.data),
                None => None,
            },
            None => None,
        }
    }

    /// Inserts `d` into `tree` below the cursor's node, by the tree's own
    /// rule but starting here rather than at the root, so the result need
    /// not stay ordered. Fails, changing nothing, when the cursor is unbound
    /// or its index names no node of `tree`. The tree's insert count is
    /// left as it was.
    pub fn insert(&self, tree: &mut BinarySearchTree, d: i32) -> (r: Result<(), CursorError>)
        requires
            old(tree).wf(),
            old(tree)@.nodes.len() < usize::MAX,
        ensures
            final(tree).wf(),
            r == match self@ {
                None => Err(CursorError::Unbound),
                Some(i) => if i < old(tree)@.nodes.len() {
                    Ok(())
                } else {
                    Err(CursorError::Stale)
                },
            },
            r is Ok ==> final(tree)@.nodes == arena_insert(
                old(tree)@.nodes,
                self@.unwrap() as int,
                d,
            ) && shape_at(final(tree)@.nodes, self@.unwrap() as int) == shape_insert(
                shape_at(old(tree)@.nodes, self@.unwrap() as int),
                d,
            ),
            r is Err ==> final(tree)@ == old(tree)@,
            final(tree)@.root == old(tree)@.root,
            final(tree)@.size == old(tree)@.size,
    {
        match self.node {
            Some(i) => match tree.resolve(i) {
                Some(_) => {
                    tree.insert_below(i, d);
                    Ok(())
                },
                None => Err(CursorError::Stale),
            },
            None => Err(CursorError::Unbound),
        }
    }

    fn step(&mut self, tree: &BinarySearchTree, s: Step)
        ensures
            final(self)@ == tree.neighbour(old(self)@, s),
    {
        let next = match self.node {
            Some(i) => match tree.resolve(i) {
                Some(n) => match s {
                    Step::Parent => n.parent,
                    Step::Left => n.left,
                    Step::Right => n.right,
                },
                None => None,
            },
            None => None,
        };
        self.node = next;
    }
}

/// Moving a cursor through a tree.
pub trait NodeCursor {
    /// Moves to the parent of the current node.
    fn parent(&mut self, tree: &BinarySearchTree);

    /// Moves to the left child of the current node.
    fn left(&mut self, tree: &BinarySearchTree);

    /// Moves to the right child of the current node.
    fn right(&mut self, tree: &BinarySearchTree);

    /// Searches downward from the current node for `d`.
    fn find(&mut self, tree: &BinarySearchTree, d: i32)
        requires
            tree.wf(),
    ;
}

impl NodeCursor for BSTNodeCursor {
    /// Moves to the parent; unbound at the root, or where the cursor was
    /// unbound or stale.
    fn parent(&mut self, tree: &BinarySearchTree)
        ensures
            final(self)@ == tree.neighbour(old(self)@, Step::Parent),
    {
        self.step(tree, Step::Parent);
    }

    /// Moves to the left child; unbound where there is none, or where the
    /// cursor was unbound or stale.
    fn left(&mut self, tree: &BinarySearchTree)
        ensures
            final(self)@ == tree.neighbour(old(self)@, Step::Left),
    {
        self.step(tree, Step::Left);
    }

    /// Moves to the right child; unbound where there is none, or where the
    /// cursor was unbound or stale.
    fn right(&mut self, tree: &BinarySearchTree)
        ensures
            final(self)@ == tree.neighbour(old(self)@, Step::Right),
    {
        self.step(tree, Step::Right);
    }

    /// Moves to the first node holding `d` on the downward search path from
    /// the current node (the current node itself when it holds `d`); becomes
    /// unbound when the path runs out, or where the cursor was unbound or
    /// stale.
    fn find(&mut self, tree: &BinarySearchTree, d: i32)
        ensures
            final(self)@ == tree.search(old(self)@, d),
    {
        let next = match self.node {
            Some(i) => match tree.resolve(i) {
                Some(_) => match tree.find_from(i, d) {
                    Ok(j) => Some(j),
                    Err(_) => None,
                },
                None => None,
            },
            None => None,
        };
        self.node = next;
    }
}

/// A cursor of an empty tree is unbound: it reads no value, and it stays
/// unbound whichever links it follows and whatever it searches for.
pub proof fn lemma_empty_tree_cursor(tree: &BinarySearchTree, s: Step, t: Step, d: i32)
    requires
        tree@.root is None,
    ensures
        tree.value_at(tree@.root) is None,
        tree.neighbour(tree@.root, s) is None,
        tree.neighbour(tree.neighbour(tree@.root, s), t) is None,
        tree.search(tree@.root, d) is None,
{
}

/// Searching from a node for the value it holds leaves the cursor where it
/// is.
pub proof fn lemma_find_own_value(tree: &BinarySearchTree, i: usize)
    requires
        tree.resolves(Some(i)),
    ensures
        tree.search(Some(i), tree@.nodes[i as int].data) == Some(i),
        tree.value_at(tree.search(Some(i), tree@.nodes[i as int].data)) == Some(
            tree@.nodes[i as int].data,
        ),
{
}

proof fn lemma_found_is_held(tree: &BinarySearchTree, i: int, d: i32)
    requires
        tree.wf(),
        0 <= i < tree@.nodes.len(),
        find_at(tree@.nodes, i, d) is Some,
    ensures
        inorder(shape_at(tree@.nodes, i)).contains(d),
    decreases tree@.nodes.len() - i,
{
    let nodes = tree@.nodes;
    assert(node_ok(nodes, i));
    if let Shape::Branch(l, v, r) = shape_at(nodes, i) {
        let a = inorder(*l);
        let b = inorder(*r);
        let s = a + seq![v] + b;
        assert(inorder(shape_at(nodes, i)) == s);
        if nodes[i].data == d {
            assert(s[a.len() as int] == d);
        } else if d > nodes[i].data {
            let c = nodes[i].right.unwrap() as int;
            lemma_found_is_held(tree, c, d);
            let k = choose|k: int| 0 <= k < b.len() && b[k] == d;
            assert(s[a.len() + 1 + k] == d);
        } else {
            let c = nodes[i].left.unwrap() as int;
            lemma_found_is_held(tree, c, d);
            let k = choose|k: int| 0 <= k < a.len() && a[k] == d;
            assert(s[k] == d);
        }
    }
}

/// Searching for a value that the subtree under the cursor does not hold
/// unbinds the cursor, which then reads no value.
pub proof fn lemma_find_absent_value(tree: &BinarySearchTree, i: usize, d: i32)
    requires
        tree.wf(),
        tree.resolves(Some(i)),
        !inorder(shape_at(tree@.nodes, i as int)).contains(d),
    ensures
        tree.search(Some(i), d) is None,
        tree.value_at(tree.search(Some(i), d)) is None,
{
    if find_at(tree@.nodes, i as int, d) is Some {
        lemma_found_is_held(tree, i as int, d);
    }
}

} // verus!
