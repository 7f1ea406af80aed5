use vstd::prelude::*;

use crate::arena::{
    arena_insert,
    arena_wf,
    attach_point,
    find_at,
    lemma_attach_wf,
    lemma_insert_shape,
    node_ok,
    shape_at,
};
use crate::node::Node;
use crate::shape::{Shape, inorder, shape_insert};

verus! {

/// A search that found no node holding `value`.
#[derive(Clone, Copy, Debug, PartialEq, Eq, Structural)]
pub struct NotFound {
    pub value: i32,
}

/// What a tree is: its arena of nodes, the index of its root, and the
/// number of inserts made through the tree.
pub struct TreeView {
    pub nodes: Seq<Node>,
    pub root: Option<usize>,
    pub size: u64,
}

/// A binary search tree of `i32` values. Its nodes sit in an arena and
/// link to each other by index; the root, when there is one, is the first
/// node.
pub struct BinarySearchTree {
    nodes: Vec<Node>,
    root: Option<usize>,
    size: u64,
}

impl View for BinarySearchTree {
    type V = TreeView;

    closed spec fn view(&self) -> TreeView {
        TreeView { nodes: self.nodes@, root: self.root, size: self.size }
    }
}

impl BinarySearchTree {
    /// The arena forms one tree whose root is the first node; a tree without
    /// a root has no nodes.
    pub open spec fn wf(&self) -> bool {
        &&& arena_wf(self@.nodes)
        &&& self@.root is None <==> self@.nodes.len() == 0
        &&& self@.root is Some ==> self@.root == Some(0usize)
    }

    /// The shape of the whole tree.
    pub open spec fn shape(&self) -> Shape {
        match self@.root {
            Some(r) => shape_at(self@.nodes, r as int),
            None => Shape::Leaf,
        }
    }

    /// One more node fits in the arena and one more insert in the count.
    pub open spec fn has_room(&self) -> bool {
        self@.nodes.len() < usize::MAX && self@.size < u64::MAX
    }

    /// An empty tree.
    pub fn new() -> (r: Self)
        ensures
            r.wf(),
            r@.nodes.len() == 0,
            r@.root is None,
            r@.size == 0,
            r.shape() == Shape::Leaf,
    {
        BinarySearchTree { nodes: Vec::new(), root: None, size: 0 }
    }

    /// Inserts `d`: as the root into an empty tree, else below the root,
    /// going right past values smaller than `d` and left past the others.
    /// Counts the insert.
    pub fn insert(&mut self, d: i32)
        requires
            old(self).wf(),
            old(self).has_room(),
        ensures
            final(self).wf(),
            final(self)@.root == Some(0usize),
            final(self)@.size == old(self)@.size + 1,
            final(self)@.nodes == if old(self)@.root is None {
                seq![Node::leaf(d, None)]
            } else {
                arena_insert(old(self)@.nodes, 0, d)
            },
            final(self).shape() == shape_insert(old(self).shape(), d),
    {
        if self.root.is_none() {
            self.nodes.push(Node::new(d));
            self.root = Some(0);
            assert(node_ok(self.nodes@, 0));
            assert(shape_at(self.nodes@, 0) == shape_insert(Shape::Leaf, d));
        } else {
            self.insert_below(0, d);
        }
        self.size = self.size + 1;
    }

    /// Inserts `d` below the node at `at`, by the same rule as `insert`,
    /// whatever lies above that node.
    pub(crate) fn insert_below(&mut self, at: usize, d: i32)
        requires
            old(self).wf(),
            at < old(self)@.nodes.len() < usize::MAX,
        ensures
            final(self).wf(),
            final(self)@.root == old(self)@.root,
            final(self)@.size == old(self)@.size,
            final(self)@.nodes == arena_insert(old(self)@.nodes, at as int, d),
            shape_at(final(self)@.nodes, at as int) == shape_insert(
                shape_at(old(self)@.nodes, at as int),
                d,
            ),
    {
        let mut cur: usize = at;
        loop
            invariant
                self.nodes@ == old(self).nodes@,
                arena_wf(self.nodes@),
                cur < self.nodes.len(),
                attach_point(self.nodes@, at as int, d) == attach_point(self.nodes@, cur as int, d),
            ensures
                cur < self.nodes.len(),
                attach_point(self.nodes@, at as int, d) == cur,
            decreases self.nodes.len() - cur,
        {
            let node = self.nodes[cur];
            assert(node_ok(self.nodes@, cur as int));
            let link = if d > node.data {
                node.right
            } else {
                node.left
            };
            match link {
                Some(c) => {
                    cur = c;
                },
                None => {
                    break ;
                },
            }
        }
        let n = self.nodes.len();
        let mut node = self.nodes[cur];
        if d > node.data {
            node.right = Some(n);
        } else {
            node.left = Some(n);
        }
        self.nodes.set(cur, node);
        self.nodes.push(Node { data: d, left: None, right: None, parent: Some(cur) });
        proof {
            lemma_attach_wf(old(self)@.nodes, at as int, d);
            lemma_insert_shape(old(self)@.nodes, at as int, d);
            assert(self.nodes@ =~= arena_insert(old(self)@.nodes, at as int, d));
        }
    }

    /// Searches from the node at `at` for a node holding `d`, descending
    /// right for a greater value and left otherwise; fails when the descent
    /// runs out of links before a match.
    pub fn find_from(&self, at: usize, d: i32) -> (r: Result<usize, NotFound>)
        requires
            self.wf(),
            at < self@.nodes.len(),
        ensures
            r == match find_at(self@.nodes, at as int, d) {
                Some(i) => Ok::<usize, NotFound>(i),
                None => Err(NotFound { value: d }),
            },
    {
        let mut cur: usize = at;
        loop
            invariant
                arena_wf(self.nodes@),
                cur < self.nodes.len(),
                find_at(self.nodes@, at as int, d) == find_at(self.nodes@, cur as int, d),
            decreases self.nodes.len() - cur,
        {
            let node = self.nodes[cur];
            assert(node_ok(self.nodes@, cur as int));
            if node.data == d {
                return Ok(cur);
            }
            let link = if d > node.data {
                node.right
            } else {
                node.left
            };
            match link {
                Some(c) => {
                    cur = c;
                },
                None => {
                    return Err(NotFound { value: d });
                },
            }
        }
    }

    /// The node at index `i`, if the arena has one there.
    pub fn resolve(&self, i: usize) -> (r: Option<Node>)
        ensures
            r == if i < self@.nodes.len() {
                Some(self@.nodes[i as int])
            } else {
                None::<Node>
            },
    {
        if i < self.nodes.len() {
            Some(self.nodes[i])
        } else {
            None
        }
    }

    /// The index of the root, if the tree has one.
    pub fn root(&self) -> (r: Option<usize>)
        ensures
            r == self@.root,
    {
        self.root
    }

    /// The number of inserts made through the tree.
    pub fn length(&self) -> (r: u64)
        ensures
            r == self@.size,
    {
        self.size
    }

    /// Whether the tree has no root.
    pub fn is_empty(&self) -> (r: bool)
        ensures
            r == (self@.root is None),
    {
        self.root.is_none()
    }

    fn inorder_into(&self, i: usize, out: &mut Vec<i32>)
        requires
            self.wf(),
            i < self@.nodes.len(),
        ensures
            final(out)@ == old(out)@ + inorder(shape_at(self@.nodes, i as int)),
        decreases self@.nodes.len() - i,
    {
        let node = self.nodes[i];
        assert(node_ok(self.nodes@, i as int));
        let ghost start = out@;
        if let Some(c) = node.left {
            self.inorder_into(c, out);
        }
        let ghost mid = out@;
        out.push(node.data);
        if let Some(c) = node.right {
            self.inorder_into(c, out);
        }
        proof {
            let sh = shape_at(self@.nodes, i as int);
            if let Shape::Branch(l, v, r) = sh {
                assert(mid == start + inorder(*l));
                assert(out@ =~= start + inorder(*l) + seq![v] + inorder(*r));
                assert(inorder(sh) == inorder(*l) + seq![v] + inorder(*r));
                assert(out@ =~= start + inorder(sh));
            }
        }
    }

    /// The values of the tree in order: left subtree, node, right subtree.
    pub fn inline_order(&self) -> (r: Vec<i32>)
        requires
            self.wf(),
        ensures
            r@ == inorder(self.shape()),
    {
        let mut out: Vec<i32> = Vec::new();
        if let Some(r) = self.root {
            self.inorder_into(r, &mut out);
        }
        assert(out@ =~= inorder(self.shape()));
        out
    }
}

} // verus!
