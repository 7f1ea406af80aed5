use vstd::prelude::*;

use crate::arena::{node_ok, shape_at};
use crate::shape::Shape;
use crate::tree::BinarySearchTree;

verus! {

/// The ASCII digit for `k`, below ten.
pub open spec fn digit_char(k: nat) -> char {
    ((k + 48) as u8) as char
}

/// The decimal digits of `n`, most significant first, without leading zeros.
pub open spec fn digits(n: nat) -> Seq<char>
    decreases n,
{
    if n < 10 {
        seq![digit_char(n)]
    } else {
        digits(n / 10).push(digit_char(n % 10))
    }
}

/// `v` in decimal, with a leading minus sign when negative.
pub open spec fn decimal(v: int) -> Seq<char> {
    if v < 0 {
        seq!['-'] + digits((-v) as nat)
    } else {
        digits(v as nat)
    }
}

/// A shape written in prefix form: each node as its value followed by
/// its left and right subtrees in brackets, an absent subtree as `*`.
pub open spec fn prefix(t: Shape) -> Seq<char>
    decreases t,
{
    match t {
        Shape::Leaf => seq!['*'],
        Shape::Branch(l, v, r) => decimal(v as int) + seq!['['] + prefix(*l) + prefix(*r) + seq![
            ']',
        ],
    }
}

fn push_digits(n: u32, out: &mut Vec<char>)
    ensures
        final(out)@ == old(out)@ + digits(n as nat),
    decreases n,
{
    if n >= 10 {
        push_digits(n / 10, out);
    }
    let k: u8 = (n % 10) as u8;
    out.push((48u8 + k) as char);
    assert(out@ =~= old(out)@ + digits(n as nat));
}

fn push_decimal(v: i32, out: &mut Vec<char>)
    ensures
        final(out)@ == old(out)@ + decimal(v as int),
{
    if v < 0 {
        out.push('-');
        let m: u32 = (-(v as i64)) as u32;
        push_digits(m, out);
        assert(out@ =~= old(out)@ + decimal(v as int));
    } else {
        push_digits(v as u32, out);
    }
}

impl BinarySearchTree {
    fn prefix_into(&self, i: usize, out: &mut Vec<char>)
        requires
            self.wf(),
            i < self@.nodes.len(),
        ensures
            final(out)@ == old(out)@ + prefix(shape_at(self@.nodes, i as int)),
        decreases self@.nodes.len() - i,
    {
        let node = self.resolve(i).unwrap();
        assert(node_ok(self@.nodes, i as int));
        let ghost start = out@;
        push_decimal(node.data, out);
        out.push('[');
        let ghost after_open = out@;
        match node.left {
            Some(c) => self.prefix_into(c, out),
            None => out.push('*'),
        }
        let ghost after_left = out@;
        match node.right {
            Some(c) => self.prefix_into(c, out),
            None => out.push('*'),
        }
        let ghost after_right = out@;
        out.push(']');
        proof {
            if let Shape::Branch(l, v, r) = shape_at(self@.nodes, i as int) {
                assert(after_left == after_open + prefix(*l));
                assert(after_right == after_left + prefix(*r));
                assert(out@ =~= start + prefix(shape_at(self@.nodes, i as int)));
            }
        }
    }

    /// The tree written in prefix form; an empty tree is a lone `*`.
    pub fn prefix_text(&self) -> (r: Vec<char>)
        requires
            self.wf(),
        ensures
            r@ == prefix(self.shape()),
    {
        let mut out: Vec<char> = Vec::new();
        match self.root() {
            Some(r) => self.prefix_into(r, &mut out),
            None => out.push('*'),
        }
        assert(out@ =~= prefix(self.shape()));
        out
    }
}

} // verus!
