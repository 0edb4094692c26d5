use vstd::prelude::*;

verus! {

/// The position of a node in the flat, breadth-first array of a k-ary tree.
///
/// The root is at 0; the children of node `i` are at `i*k + 1 ..= i*k + k`, so the parent of a
/// non-root node `i` is at `(i - 1) / k`.
#[derive(Copy, Clone, PartialEq, Eq, Structural, Debug)]
pub struct NodeIndex(pub usize);

/// The parent of a non-root position.
pub open spec fn parent_of(i: int, arity: int) -> int {
    (i - 1) / arity
}

/// The position of a non-root node among its siblings, in `[0, arity)`.
pub open spec fn offset_of(i: int, arity: int) -> int {
    if i == 0 {
        0
    } else {
        (i - 1) % arity
    }
}

/// The position of the `c`-th child.
pub open spec fn child_of(i: int, arity: int, c: int) -> int {
    i * arity + c + 1
}

/// A child sits below its parent, at its offset.
pub proof fn lemma_parent_child(i: int, arity: int)
    requires
        i > 0,
        arity > 0,
    ensures
        child_of(parent_of(i, arity), arity, offset_of(i, arity)) == i,
        0 <= offset_of(i, arity) < arity,
        0 <= parent_of(i, arity) < i,
{
    vstd::arithmetic::div_mod::lemma_fundamental_div_mod(i - 1, arity);
    vstd::arithmetic::div_mod::lemma_div_pos_is_pos(i - 1, arity);
    vstd::arithmetic::div_mod::lemma_mod_bound(i - 1, arity);
    vstd::arithmetic::div_mod::lemma_div_is_ordered_by_denominator(i - 1, 1, arity);
    let q = (i - 1) / arity;
    let m = (i - 1) % arity;
    assert(q * arity == arity * q) by (nonlinear_arith);
}

/// The `c`-th child of `i` has `i` as parent and `c` as offset.
pub proof fn lemma_child_parent(i: int, arity: int, c: int)
    requires
        i >= 0,
        arity > 0,
        0 <= c < arity,
    ensures
        parent_of(child_of(i, arity, c), arity) == i,
        offset_of(child_of(i, arity, c), arity) == c,
{
    vstd::arithmetic::div_mod::lemma_fundamental_div_mod_converse(i * arity + c, arity, i, c);
}

impl NodeIndex {
    pub open spec fn view(&self) -> int {
        self.0 as int
    }

    pub fn root_node() -> (r: NodeIndex)
        ensures
            r@ == 0,
    {
        NodeIndex(0)
    }

    /// Whether this is the root.
    pub fn is_root(&self) -> (r: bool)
        ensures
            r == (self@ == 0),
    {
        self.0 == 0
    }

    /// The position of this node among its siblings, in `[0, arity)`; 0 for the root.
    pub fn child_offset(&self, arity: usize) -> (r: usize)
        requires
            arity > 0,
        ensures
            r == offset_of(self@, arity as int),
            r < arity,
    {
        if self.is_root() {
            0
        } else {
            (self.0 - 1) % arity
        }
    }

    /// The parent of a non-root node.
    pub fn parent(&self, arity: usize) -> (r: NodeIndex)
        requires
            self@ != 0,
            arity > 0,
        ensures
            r@ == parent_of(self@, arity as int),
            r@ < self@,
    {
        proof {
            lemma_parent_child(self@, arity as int);
        }
        NodeIndex((self.0 - 1) / arity)
    }

    /// The `i`-th child, for `i` in `[0, arity)`.
    pub fn child(&self, arity: usize, i: usize) -> (r: NodeIndex)
        requires
            i < arity,
            self@ * arity + i + 1 <= usize::MAX,
        ensures
            r@ == child_of(self@, arity as int, i as int),
    {
        NodeIndex(self.0 * arity + (i + 1))
    }
}

} // verus!
