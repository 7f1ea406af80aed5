use vstd::prelude::*;

verus! {

/// One node of the tree: a value, the arena indices of its two children
/// and the arena index of its parent (absent for the root).
#[derive(Clone, Copy, Debug, PartialEq, Eq, Structural)]
pub struct Node {
    pub data: i32,
    pub left: Option<usize>,
    pub right: Option<usize>,
    pub parent: Option<usize>,
}

impl Node {
    /// A detached node holding `d`, with no children and no parent.
    pub fn new(d: i32) -> (r: Node)
        ensures
            r == Node::leaf(d, None),
    {
        Node { data: d, left: None, right: None, parent: None }
    }

    /// A childless node holding `d` under `parent`.
    pub open spec fn leaf(d: i32, parent: Option<usize>) -> Node {
        Node { data: d, left: None, right: None, parent }
    }
}

} // verus!
