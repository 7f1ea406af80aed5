use vstd::prelude::*;

verus! {

/// The mathematical shape of a binary tree of values: what a tree stored in
/// an arena means, independent of where its nodes sit.
pub enum Shape {
    Leaf,
    Branch(Box<Shape>, i32, Box<Shape>),
}

/// Insertion into a shape: values greater than a node's value go right,
/// values less than or equal to it go left, and the new value becomes a
/// fresh leaf where the descent runs out.
pub open spec fn shape_insert(t: Shape, d: i32) -> Shape
    decreases t,
{
    match t {
        Shape::Leaf => Shape::Branch(Box::new(Shape::Leaf), d, Box::new(Shape::Leaf)),
        Shape::Branch(l, v, r) => if d > v {
            Shape::Branch(l, v, Box::new(shape_insert(*r, d)))
        } else {
            Shape::Branch(Box::new(shape_insert(*l, d)), v, r)
        },
    }
}

/// The values of a shape, left subtree first, then the node, then the right
/// subtree.
pub open spec fn inorder(t: Shape) -> Seq<i32>
    decreases t,
{
    match t {
        Shape::Leaf => Seq::empty(),
        Shape::Branch(l, v, r) => inorder(*l) + seq![v] + inorder(*r),
    }
}

/// The number of nodes of a shape.
pub open spec fn node_count(t: Shape) -> nat
    decreases t,
{
    match t {
        Shape::Leaf => 0,
        Shape::Branch(l, _, r) => node_count(*l) + 1 + node_count(*r),
    }
}

/// The shape that a fresh tree has after `values` were inserted, in order.
pub open spec fn built(values: Seq<i32>) -> Shape
    decreases values.len(),
{
    if values.len() == 0 {
        Shape::Leaf
    } else {
        shape_insert(built(values.drop_last()), values.last())
    }
}

pub open spec fn all_le(s: Seq<i32>, v: i32) -> bool {
    forall|k: int| 0 <= k < s.len() ==> s[k] <= v
}

pub open spec fn all_gt(s: Seq<i32>, v: i32) -> bool {
    forall|k: int| 0 <= k < s.len() ==> s[k] > v
}

/// Every node's left subtree holds values at most its own, its right subtree
/// values above it.
pub open spec fn ordered(t: Shape) -> bool
    decreases t,
{
    match t {
        Shape::Leaf => true,
        Shape::Branch(l, v, r) => ordered(*l) && ordered(*r) && all_le(inorder(*l), v) && all_gt(
            inorder(*r),
            v,
        ),
    }
}

pub open spec fn sorted(s: Seq<i32>) -> bool {
    forall|i: int, j: int| 0 <= i < j < s.len() ==> s[i] <= s[j]
}

/// `d` placed into `s` right after the leading values below `d`: in a sorted
/// sequence, just before the first value greater than or equal to `d`.
pub open spec fn insert_sorted(s: Seq<i32>, d: i32) -> Seq<i32>
    decreases s.len(),
{
    if s.len() == 0 {
        seq![d]
    } else if s[0] < d {
        seq![s[0]] + insert_sorted(s.drop_first(), d)
    } else {
        seq![d] + s
    }
}

/// `values` sorted by inserting each in turn with `insert_sorted`.
pub open spec fn insertion_sorted(values: Seq<i32>) -> Seq<i32>
    decreases values.len(),
{
    if values.len() == 0 {
        Seq::empty()
    } else {
        insert_sorted(insertion_sorted(values.drop_last()), values.last())
    }
}

proof fn lemma_insert_sorted_after_smaller(a: Seq<i32>, b: Seq<i32>, d: i32)
    requires
        forall|k: int| 0 <= k < a.len() ==> a[k] < d,
    ensures
        insert_sorted(a + b, d) == a + insert_sorted(b, d),
    decreases a.len(),
{
    if a.len() > 0 {
        assert((a + b).drop_first() == a.drop_first() + b);
        lemma_insert_sorted_after_smaller(a.drop_first(), b, d);
        assert(a == seq![a[0]] + a.drop_first());
    } else {
        assert(a + b == b);
    }
}

proof fn lemma_insert_sorted_before_larger(a: Seq<i32>, b: Seq<i32>, d: i32)
    requires
        b.len() > 0,
        b[0] >= d,
    ensures
        insert_sorted(a + b, d) == insert_sorted(a, d) + b,
    decreases a.len(),
{
    if a.len() > 0 {
        assert((a + b).drop_first() == a.drop_first() + b);
        assert((a + b)[0] == a[0]);
        if a[0] < d {
            lemma_insert_sorted_before_larger(a.drop_first(), b, d);
        } else {
            assert(seq![d] + (a + b) == (seq![d] + a) + b);
        }
    } else {
        assert(a + b == b);
    }
}

proof fn lemma_insert_sorted_bounds(s: Seq<i32>, d: i32, v: i32)
    ensures
        insert_sorted(s, d).len() == s.len() + 1,
        all_le(s, v) && d <= v ==> all_le(insert_sorted(s, d), v),
        all_gt(s, v) && d > v ==> all_gt(insert_sorted(s, d), v),
    decreases s.len(),
{
    if s.len() > 0 && s[0] < d {
        lemma_insert_sorted_bounds(s.drop_first(), d, v);
    }
}

/// Inserting into an ordered shape keeps it ordered and places the new value
/// in the in-order sequence right before its first equal or greater peer.
pub proof fn lemma_insert_inorder(t: Shape, d: i32)
    requires
        ordered(t),
    ensures
        ordered(shape_insert(t, d)),
        inorder(shape_insert(t, d)) == insert_sorted(inorder(t), d),
        node_count(shape_insert(t, d)) == node_count(t) + 1,
    decreases t,
{
    match t {
        Shape::Leaf => {
            assert(inorder(shape_insert(t, d)) =~= seq![d]);
        },
        Shape::Branch(l, v, r) => {
            let a = inorder(*l);
            let b = inorder(*r);
            if d > v {
                lemma_insert_inorder(*r, d);
                let nb = inorder(shape_insert(*r, d));
                lemma_insert_sorted_bounds(b, d, v);
                assert(inorder(t) == (a + seq![v]) + b);
                lemma_insert_sorted_after_smaller(a + seq![v], b, d);
                assert(inorder(shape_insert(t, d)) == (a + seq![v]) + nb);
            } else {
                lemma_insert_inorder(*l, d);
                let na = inorder(shape_insert(*l, d));
                lemma_insert_sorted_bounds(a, d, v);
                assert(inorder(t) == a + (seq![v] + b));
                lemma_insert_sorted_before_larger(a, seq![v] + b, d);
                assert(inorder(shape_insert(t, d)) == na + (seq![v] + b));
            }
        },
    }
}

proof fn lemma_ordered_sorted(t: Shape)
    requires
        ordered(t),
    ensures
        sorted(inorder(t)),
    decreases t,
{
    if let Shape::Branch(l, v, r) = t {
        lemma_ordered_sorted(*l);
        lemma_ordered_sorted(*r);
        let a = inorder(*l);
        let b = inorder(*r);
        let s = inorder(t);
        assert(s == a + seq![v] + b);
        assert forall|i: int, j: int| 0 <= i < j < s.len() implies s[i] <= s[j] by {
            if j < a.len() {
            } else if i < a.len() {
                assert(s[i] == a[i]);
                if j > a.len() {
                    assert(s[j] == b[j - a.len() - 1]);
                }
            } else if i == a.len() {
                assert(s[j] == b[j - a.len() - 1]);
            } else {
                assert(s[i] == b[i - a.len() - 1]);
                assert(s[j] == b[j - a.len() - 1]);
            }
        }
    }
}

/// For every sequence of inserted values, the in-order values of the tree
/// are sorted, and each value stands right before the values it was not
/// greater than when it came: equal values come out newest first.
pub proof fn lemma_inorder_of_inserts(values: Seq<i32>)
    ensures
        ordered(built(values)),
        inorder(built(values)) == insertion_sorted(values),
        sorted(inorder(built(values))),
    decreases values.len(),
{
    if values.len() > 0 {
        lemma_inorder_of_inserts(values.drop_last());
        lemma_insert_inorder(built(values.drop_last()), values.last());
    }
    lemma_ordered_sorted(built(values));
}

/// After `n` inserts into a fresh tree it holds `n` nodes, whatever the
/// values and however many of them are equal.
pub proof fn lemma_count_of_inserts(values: Seq<i32>)
    ensures
        node_count(built(values)) == values.len(),
        inorder(built(values)).len() == values.len(),
    decreases values.len(),
{
    if values.len() > 0 {
        lemma_count_of_inserts(values.drop_last());
        lemma_inorder_of_inserts(values.drop_last());
        lemma_insert_inorder(built(values.drop_last()), values.last());
        lemma_insert_sorted_bounds(inorder(built(values.drop_last())), values.last(), 0);
    }
}

} // verus!
