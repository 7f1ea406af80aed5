use vstd::prelude::*;

use crate::node::Node;
use crate::shape::{Shape, shape_insert};

verus! {

/// `link` is present and names the node at `i`.
pub open spec fn links_to(link: Option<usize>, i: int) -> bool {
    link is Some && link.unwrap() as int == i
}

/// The child link `link` of the node at `i`, where present, names a later
/// node of the arena whose parent link names `i`.
pub open spec fn link_ok(nodes: Seq<Node>, i: int, link: Option<usize>) -> bool {
    match link {
        Some(c) => i < c < nodes.len() && links_to(nodes[c as int].parent, i),
        None => true,
    }
}

/// The links of the node at `i` are consistent: each child comes later in
/// the arena and names `i` as its parent, the two children differ, and the
/// parent comes earlier and holds `i` as one of its children. Only the
/// first node has no parent.
pub open spec fn node_ok(nodes: Seq<Node>, i: int) -> bool {
    let n = nodes[i];
    &&& link_ok(nodes, i, n.left)
    &&& link_ok(nodes, i, n.right)
    &&& (n.left is Some && n.right is Some ==> n.left != n.right)
    &&& match n.parent {
        Some(p) => p < i && (links_to(nodes[p as int].left, i) || links_to(nodes[p as int].right, i)),
        None => i == 0,
    }
}

/// A well-formed arena: every node is consistent, so the nodes form one tree
/// rooted at the first node.
pub open spec fn arena_wf(nodes: Seq<Node>) -> bool {
    forall|i: int| 0 <= i < nodes.len() ==> #[trigger] node_ok(nodes, i)
}

/// The subtree below the link `link` of the node at `i`.
pub open spec fn child_shape(nodes: Seq<Node>, i: int, link: Option<usize>) -> Shape
    decreases nodes.len() - i, 0int,
{
    match link {
        Some(c) => if 0 <= i < c < nodes.len() {
            shape_at(nodes, c as int)
        } else {
            Shape::Leaf
        },
        None => Shape::Leaf,
    }
}

/// The shape of the subtree rooted at the node at `i`.
pub open spec fn shape_at(nodes: Seq<Node>, i: int) -> Shape
    decreases nodes.len() - i, 1int,
{
    if 0 <= i < nodes.len() {
        Shape::Branch(
            Box::new(child_shape(nodes, i, nodes[i].left)),
            nodes[i].data,
            Box::new(child_shape(nodes, i, nodes[i].right)),
        )
    } else {
        Shape::Leaf
    }
}

/// The node where inserting `d` below the node at `at` attaches the new
/// node: the descent goes right for a value greater than a node's, left
/// otherwise, and ends at the first node without a child on that side.
pub open spec fn attach_point(nodes: Seq<Node>, at: int, d: i32) -> int
    decreases nodes.len() - at,
{
    if 0 <= at < nodes.len() {
        let link = if d > nodes[at].data {
            nodes[at].right
        } else {
            nodes[at].left
        };
        match link {
            Some(c) => if at < c < nodes.len() {
                attach_point(nodes, c as int, d)
            } else {
                at
            },
            None => at,
        }
    } else {
        at
    }
}

/// The arena after a new node holding `d` was appended and hung below the
/// node at `p`, on the right if `d` is greater than its value, else on the
/// left.
pub open spec fn arena_attach(nodes: Seq<Node>, p: int, d: i32) -> Seq<Node> {
    let n = nodes.len() as usize;
    let old_p = nodes[p];
    let new_p = if d > old_p.data {
        Node { right: Some(n), ..old_p }
    } else {
        Node { left: Some(n), ..old_p }
    };
    nodes.update(p, new_p).push(Node::leaf(d, Some(p as usize)))
}

/// The arena after inserting `d` below the node at `at`.
pub open spec fn arena_insert(nodes: Seq<Node>, at: int, d: i32) -> Seq<Node> {
    arena_attach(nodes, attach_point(nodes, at, d), d)
}

/// The node that a search for `d` from the node at `at` stops on: the first
/// node on the descent whose value is `d`, or none when the descent runs
/// out of links first.
pub open spec fn find_at(nodes: Seq<Node>, at: int, d: i32) -> Option<usize>
    decreases nodes.len() - at,
{
    if 0 <= at < nodes.len() {
        if nodes[at].data == d {
            Some(at as usize)
        } else {
            let link = if d > nodes[at].data {
                nodes[at].right
            } else {
                nodes[at].left
            };
            match link {
                Some(c) => if at < c < nodes.len() {
                    find_at(nodes, c as int, d)
                } else {
                    None
                },
                None => None,
            }
        }
    } else {
        None
    }
}

/// The node at `x` lies in the subtree rooted at `i`.
pub open spec fn below(nodes: Seq<Node>, i: int, x: int) -> bool
    decreases nodes.len() - i,
{
    if 0 <= i < nodes.len() {
        x == i || (match nodes[i].left {
            Some(c) => i < c < nodes.len() && below(nodes, c as int, x),
            None => false,
        }) || (match nodes[i].right {
            Some(c) => i < c < nodes.len() && below(nodes, c as int, x),
            None => false,
        })
    } else {
        false
    }
}

/// The node at `a` is reached from the node at `x` by following parent
/// links, zero or more times.
pub open spec fn above(nodes: Seq<Node>, x: int, a: int) -> bool
    decreases x,
{
    x == a || (0 <= x < nodes.len() && match nodes[x].parent {
        Some(p) => 0 <= p < x && above(nodes, p as int, a),
        None => false,
    })
}

proof fn lemma_below_later(nodes: Seq<Node>, i: int, x: int)
    requires
        below(nodes, i, x),
    ensures
        i <= x < nodes.len(),
    decreases nodes.len() - i,
{
    let n = nodes[i];
    if x != i {
        if let Some(c) = n.left {
            if i < c < nodes.len() && below(nodes, c as int, x) {
                lemma_below_later(nodes, c as int, x);
            }
        }
        if let Some(c) = n.right {
            if i < c < nodes.len() && below(nodes, c as int, x) {
                lemma_below_later(nodes, c as int, x);
            }
        }
    }
}

proof fn lemma_above_earlier(nodes: Seq<Node>, x: int, a: int)
    requires
        above(nodes, x, a),
    ensures
        a <= x,
    decreases x,
{
    if x != a {
        lemma_above_earlier(nodes, nodes[x].parent.unwrap() as int, a);
    }
}

proof fn lemma_above_extend(nodes: Seq<Node>, x: int, c: int, i: int)
    requires
        above(nodes, x, c),
        0 <= i < c < nodes.len(),
        links_to(nodes[c].parent, i),
    ensures
        above(nodes, x, i),
    decreases x,
{
    if x == c {
        assert(above(nodes, i, i));
    } else {
        lemma_above_extend(nodes, nodes[x].parent.unwrap() as int, c, i);
    }
}

proof fn lemma_below_above(nodes: Seq<Node>, i: int, x: int)
    requires
        arena_wf(nodes),
        below(nodes, i, x),
    ensures
        above(nodes, x, i),
    decreases nodes.len() - i,
{
    assert(node_ok(nodes, i));
    let n = nodes[i];
    if x != i {
        if let Some(c) = n.left {
            if i < c < nodes.len() && below(nodes, c as int, x) {
                lemma_below_above(nodes, c as int, x);
                lemma_above_extend(nodes, x, c as int, i);
                return;
            }
        }
        if let Some(c) = n.right {
            lemma_below_above(nodes, c as int, x);
            lemma_above_extend(nodes, x, c as int, i);
        }
    }
}

proof fn lemma_above_chain(nodes: Seq<Node>, x: int, a: int, b: int)
    requires
        above(nodes, x, a),
        above(nodes, x, b),
        a < b,
    ensures
        above(nodes, b, a),
    decreases x,
{
    if x == a {
        lemma_above_earlier(nodes, x, b);
    } else if x != b {
        lemma_above_chain(nodes, nodes[x].parent.unwrap() as int, a, b);
    }
}

/// The two subtrees of a node share no node.
proof fn lemma_subtrees_disjoint(nodes: Seq<Node>, i: int, x: int)
    requires
        arena_wf(nodes),
        0 <= i < nodes.len(),
        nodes[i].left is Some,
        nodes[i].right is Some,
    ensures
        !(below(nodes, nodes[i].left.unwrap() as int, x) && below(
            nodes,
            nodes[i].right.unwrap() as int,
            x,
        )),
{
    assert(node_ok(nodes, i));
    let l = nodes[i].left.unwrap() as int;
    let r = nodes[i].right.unwrap() as int;
    if below(nodes, l, x) && below(nodes, r, x) {
        lemma_below_above(nodes, l, x);
        lemma_below_above(nodes, r, x);
        if l < r {
            lemma_above_chain(nodes, x, l, r);
            lemma_above_earlier(nodes, i, l);
        } else {
            lemma_above_chain(nodes, x, r, l);
            lemma_above_earlier(nodes, i, r);
        }
    }
}

/// Hanging a new node below `p` leaves every subtree that does not hold `p`
/// as it was.
proof fn lemma_attach_frame(nodes: Seq<Node>, p: int, d: i32, i: int)
    requires
        arena_wf(nodes),
        0 <= p < nodes.len(),
        0 <= i < nodes.len(),
        nodes.len() < usize::MAX,
        !below(nodes, i, p),
    ensures
        shape_at(arena_attach(nodes, p, d), i) == shape_at(nodes, i),
    decreases nodes.len() - i,
{
    let new = arena_attach(nodes, p, d);
    assert(node_ok(nodes, i));
    assert(new[i] == nodes[i]);
    if let Some(c) = nodes[i].left {
        lemma_attach_frame(nodes, p, d, c as int);
    }
    if let Some(c) = nodes[i].right {
        lemma_attach_frame(nodes, p, d, c as int);
    }
}

/// The attach point lies below `at` and has no child on the side that the
/// new value goes to.
proof fn lemma_attach_point(nodes: Seq<Node>, at: int, d: i32)
    requires
        arena_wf(nodes),
        0 <= at < nodes.len(),
    ensures
        below(nodes, at, attach_point(nodes, at, d)),
        0 <= attach_point(nodes, at, d) < nodes.len(),
        d > nodes[attach_point(nodes, at, d)].data ==> nodes[attach_point(nodes, at, d)].right is None,
        d <= nodes[attach_point(nodes, at, d)].data ==> nodes[attach_point(nodes, at, d)].left is None,
    decreases nodes.len() - at,
{
    assert(node_ok(nodes, at));
    let link = if d > nodes[at].data {
        nodes[at].right
    } else {
        nodes[at].left
    };
    if let Some(c) = link {
        lemma_attach_point(nodes, c as int, d);
    }
}

/// Hanging a new node at its attach point keeps the arena well formed.
pub proof fn lemma_attach_wf(nodes: Seq<Node>, at: int, d: i32)
    requires
        arena_wf(nodes),
        0 <= at < nodes.len(),
        nodes.len() < usize::MAX,
    ensures
        arena_wf(arena_insert(nodes, at, d)),
        arena_insert(nodes, at, d).len() == nodes.len() + 1,
{
    lemma_attach_point(nodes, at, d);
    let p = attach_point(nodes, at, d);
    let new = arena_insert(nodes, at, d);
    let n = nodes.len() as int;
    assert forall|i: int| 0 <= i < new.len() implies #[trigger] node_ok(new, i) by {
        if i < n {
            assert(node_ok(nodes, i));
            if let Some(q) = nodes[i].parent {
                assert(node_ok(nodes, q as int));
            }
            if let Some(c) = nodes[i].left {
                assert(node_ok(nodes, c as int));
            }
            if let Some(c) = nodes[i].right {
                assert(node_ok(nodes, c as int));
            }
        }
    }
}

/// Inserting below `at` changes the subtree at `at` exactly as inserting
/// into its shape does.
pub proof fn lemma_insert_shape(nodes: Seq<Node>, at: int, d: i32)
    requires
        arena_wf(nodes),
        0 <= at < nodes.len(),
        nodes.len() < usize::MAX,
    ensures
        shape_at(arena_insert(nodes, at, d), at) == shape_insert(shape_at(nodes, at), d),
    decreases nodes.len() - at,
{
    lemma_attach_point(nodes, at, d);
    let p = attach_point(nodes, at, d);
    let new = arena_insert(nodes, at, d);
    let n = nodes.len() as int;
    assert(node_ok(nodes, at));
    assert(shape_at(new, n) == Shape::Branch(Box::new(Shape::Leaf), d, Box::new(Shape::Leaf)));
    if d > nodes[at].data {
        if let Some(r) = nodes[at].right {
            assert(p == attach_point(nodes, r as int, d));
            lemma_insert_shape(nodes, r as int, d);
            lemma_attach_point(nodes, r as int, d);
            lemma_below_later(nodes, r as int, p);
            assert(new[at] == nodes[at]);
            if let Some(l) = nodes[at].left {
                lemma_subtrees_disjoint(nodes, at, p);
                lemma_attach_frame(nodes, p, d, l as int);
            }
            assert(child_shape(new, at, new[at].right) == shape_insert(child_shape(nodes, at, nodes[at].right), d));
            assert(child_shape(new, at, new[at].left) == child_shape(nodes, at, nodes[at].left));
        } else {
            if let Some(l) = nodes[at].left {
                if below(nodes, l as int, at) {
                    lemma_below_later(nodes, l as int, at);
                }
                lemma_attach_frame(nodes, p, d, l as int);
            }
        }
    } else {
        if let Some(l) = nodes[at].left {
            assert(p == attach_point(nodes, l as int, d));
            lemma_insert_shape(nodes, l as int, d);
            lemma_attach_point(nodes, l as int, d);
            lemma_below_later(nodes, l as int, p);
            assert(new[at] == nodes[at]);
            if let Some(r) = nodes[at].right {
                lemma_subtrees_disjoint(nodes, at, p);
                lemma_attach_frame(nodes, p, d, r as int);
            }
            assert(child_shape(new, at, new[at].left) == shape_insert(child_shape(nodes, at, nodes[at].left), d));
            assert(child_shape(new, at, new[at].right) == child_shape(nodes, at, nodes[at].right));
        } else {
            if let Some(r) = nodes[at].right {
                if below(nodes, r as int, at) {
                    lemma_below_later(nodes, r as int, at);
                }
                lemma_attach_frame(nodes, p, d, r as int);
            }
        }
    }
}

} // verus!
