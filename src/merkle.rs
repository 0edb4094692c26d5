use vstd::prelude::*;

verus! {

use std::collections::VecDeque;
use std::marker::PhantomData;
use vstd::arithmetic::power::*;
use vstd::arithmetic::div_mod::*;
use crate::max_leaves;
use crate::layout::{
    depth, epsilon_from, internal_count, lemma_geometric, lemma_height_bounds,
    lemma_depth_below, lemma_level_depth, lemma_level_start_nonneg, lemma_level_start_pow,
    lemma_multiple_within, lemma_perfect_height,
    level_start, perfect_leaves, second_to_last_count, tree_height,
};
use crate::node_index::{NodeIndex, child_of, lemma_parent_child, offset_of, parent_of};
use crate::propagation::{
    ascending, children_of, combined_all, combined_in_update, first_at_or_past, flush,
    leaf_entries, lemma_combined_all, lemma_first_at_or_past, lemma_leaf_entries_leveled,
    lemma_propagate_leveled, positions, preprocessed, propagate,
    propagate_all, updated_nodes, updates_ok, write_children, child_count, pass_cost, cost_all,
    preprocess_cost, update_cost, ancestor_of_entry, ancestor_of_update, entry_at, is_ancestor,
    lemma_propagate_all_frame, lemma_propagate_frame, lemma_propagate_writes,
    lemma_propagate_all_writes, lemma_ancestor_below,
};
use crate::tree_hasher::{
    TreeHasherFunc, lemma_saturating_add, offsets_ascending, offsets_distinct, saturating,
};

/// A k-ary tree of digests kept in one flat, breadth-first array, updated in batches.
///
/// The root is `nodes[0]`; the children of `nodes[i]` are `nodes[i*k + 1 ..= i*k + k]`.
/// The first `num_internal_nodes` entries are internal nodes, the rest are leaves, numbered in
/// array order. When the leaves do not fill a perfect tree they sit on the last two levels:
/// those before `first_last_level_leaf` on the second-to-last level, the others on the last.
pub struct AbstractMerkle<LeafDataType, HashType, Hasher> {
    arity: usize,
    num_internal_nodes: usize,
    num_leaves: usize,
    nodes: Vec<HashType>,
    /// The hashing policy.
    pub hasher: Hasher,
    phantom: PhantomData<LeafDataType>,
    first_last_level_leaf: NodeIndex,
}

/// Why a batch of leaf updates was refused.
#[derive(Copy, Clone, Debug, PartialEq, Eq, Structural)]
pub enum InvalidArgument {
    /// The positions do not strictly increase, or one names no leaf of the tree.
    UnsortedOrOutOfRange,
}

/// The level of the leaves before `first_last_level_leaf` (when the leaves sit on two levels),
/// or of all leaves (when they sit on one).
pub open spec fn leaf_level(k: int, n: int) -> nat {
    if n <= perfect_leaves(k, n) || second_to_last_count(k, n) > 0 {
        tree_height(k, n)
    } else {
        tree_height(k, n) + 1
    }
}

/// The leaves sit on whole levels: with leaves on two levels, those from `num_internal` to
/// `first_last_level_leaf` end level `d` and the others start level `d + 1`; else all of them
/// sit on level `d`.
pub open spec fn leaves_on_levels(k: int, d: nat, num_internal: int, fll: int, len: int) -> bool {
    &&& level_start(k, d) <= num_internal
    &&& fll > num_internal ==> fll == level_start(k, d + 1) && len <= level_start(k, d + 2)
    &&& fll == num_internal ==> len <= level_start(k, d + 1)
}

/// The computations that policy `P` counts for a parent, in trees of the given arity.
pub open spec fn cost_of<L, H, P: TreeHasherFunc<L, H>>(arity: nat) -> spec_fn(nat, nat) -> nat {
    |m: nat, c: nat| P::nodes_cost(arity, m, c)
}

/// Whether digest `h` may stand at position `i` of a tree with `num_internal` internal nodes.
pub open spec fn slot_ok<L, H, P: TreeHasherFunc<L, H>>(num_internal: int, i: int, h: H) -> bool {
    if i < num_internal {
        P::node_kind(h)
    } else {
        P::leaf_kind(h)
    }
}


/// In one update, no node is combined twice: the positions of the parents that `update_leaves`
/// combines are all distinct.
pub proof fn lemma_single_combine_per_node<L, H: Copy, P: TreeHasherFunc<L, H>>(
    t: AbstractMerkle<L, H, P>,
    upds: Seq<(usize, L)>,
)
    requires
        t.wf(),
        updates_ok(upds, t.spec_num_leaves()),
    ensures
        combined_in_update(
            t.spec_hasher().leaf_fn(),
            t.spec_hasher().nodes_fn(),
            t.spec_arity(),
            t.spec_num_internal(),
            t.spec_first_last_level_leaf(),
            t.spec_nodes(),
            upds,
        ).no_duplicates(),
{
    let lf = t.spec_hasher().leaf_fn();
    let f = t.spec_hasher().nodes_fn();
    let k = t.spec_arity();
    let ni = t.spec_num_internal();
    let fll = t.spec_first_last_level_leaf();
    let nodes = t.spec_nodes();
    let len = nodes.len() as int;
    let d = leaf_level(k, t.spec_num_leaves());
    let ub = ni;
    assert(leaves_on_levels(k, d, ni, fll, len));
    lemma_level_start_nonneg(k, d);
    lemma_level_start_nonneg(k, d + 1);
    // the parent of every node is an internal node
    assert forall|x: int| 0 <= x < len implies parent_of(x, k) < ni by {
        if x > 0 {
            lemma_div_is_ordered(x - 1, len - 2, k);
        } else {
            lemma_fundamental_div_mod_converse(-1, k, -1, k - 1);
        }
    }
    let all = combined_in_update(lf, f, k, ni, fll, nodes, upds);
    if fll > ni {
        let bound = fll - ni;
        lemma_first_at_or_past(upds, bound, 0);
        let s = first_at_or_past(upds, bound, 0);
        let du = upds.subrange(s, upds.len() as int);
        let uu = upds.subrange(0, s);
        let deep = leaf_entries(lf, k, ni, du);
        let upper = leaf_entries(lf, k, ni, uu);
        let (n1, out) = propagate(f, k, nodes, deep, 0, 0, Seq::empty());
        let queue = out + upper;
        let rest = combined_all(f, k, n1, queue, nodes.len());
        assert(all == positions(out) + rest);
        let found = 0 <= s < upds.len() && upds[s].0 >= bound;
        if found {
            // the updated leaves of the last level, then their parents, sit at depth d + 1 and d
            assert forall|j: int| 0 <= j < du.len() implies level_start(k, d + 1) <= ni + (#[trigger] du[j]).0
                < level_start(k, (d + 1) as nat + 1) by {
                assert(du[j] == upds[s + j]);
                if j > 0 {
                    assert(upds[s].0 < upds[s + j].0);
                }
            }
            assert forall|j: int| 0 <= j < du.len() implies parent_of(ni + (#[trigger] du[j]).0, k) < ub by {
                assert(du[j] == upds[s + j]);
            }
            lemma_leaf_entries_leveled(lf, k, ni, du, d + 1, ub);
            lemma_leaf_entries_leveled(lf, k, ni, uu, d, ub);
            if deep.len() == 0 {
                assert(false);
            }
            lemma_propagate_leveled(f, k, nodes, deep, 0, 0, Seq::empty(), d + 1, ub);
            assert forall|j: int| 0 <= j < queue.len() implies depth((#[trigger] queue[j]).0@, k) == d by {
                if j >= out.len() {
                    assert(queue[j] == upper[j - out.len()]);
                }
            }
            assert forall|a: int, b: int| 0 <= a < b < queue.len() implies (#[trigger] queue[a]).0@
                < (#[trigger] queue[b]).0@ by {
                if b < out.len() {
                } else if a < out.len() {
                    assert(queue[b] == upper[b - out.len()]);
                } else {
                    assert(queue[a] == upper[a - out.len()]);
                    assert(queue[b] == upper[b - out.len()]);
                }
            }
            lemma_combined_all(f, k, n1, queue, nodes.len(), d);
            let po = positions(out);
            assert forall|a: int, b: int| 0 <= a < all.len() && 0 <= b < all.len() && a != b implies all[a]
                != all[b] by {
                if a < po.len() && b < po.len() {
                    if a < b {
                        assert(out[a].0@ < out[b].0@);
                    } else {
                        assert(out[b].0@ < out[a].0@);
                    }
                } else if a < po.len() {
                    assert(depth(out[a].0@, k) == d);
                    assert(all[b] == rest[b - po.len()]);
                } else if b < po.len() {
                    assert(depth(out[b].0@, k) == d);
                    assert(all[a] == rest[a - po.len()]);
                } else {
                    assert(all[a] == rest[a - po.len()]);
                    assert(all[b] == rest[b - po.len()]);
                }
            }
        } else {
            // no leaf of the last level is updated: nothing is settled first, and every update
            // is on level d
            assert(s == upds.len());
            assert(uu =~= upds);
            assert(du.len() == 0);
            assert(deep.len() == 0);
            assert(out.len() == 0);
            assert(n1 == nodes);
            assert(queue =~= upper);
            assert forall|j: int| 0 <= j < uu.len() implies level_start(k, d) <= ni + (#[trigger] uu[j]).0
                < level_start(k, d + 1) by {
                assert(uu[j] == upds[j]);
            }
            lemma_leaf_entries_leveled(lf, k, ni, uu, d, ub);
            lemma_combined_all(f, k, n1, queue, nodes.len(), d);
            assert(all =~= rest);
        }
    } else {
        let q = leaf_entries(lf, k, ni, upds);
        lemma_leaf_entries_leveled(lf, k, ni, upds, d, ub);
        lemma_combined_all(f, k, nodes, q, nodes.len(), d);
    }
}

/// A batch update changes only the updated leaves and their proper ancestors: the array keeps
/// its length, every other node keeps its digest, and every parent combined is a proper
/// ancestor of an updated leaf.
pub proof fn lemma_update_frame<L, H: Copy, P: TreeHasherFunc<L, H>>(
    t: AbstractMerkle<L, H, P>,
    upds: Seq<(usize, L)>,
    x: int,
)
    requires
        t.wf(),
        updates_ok(upds, t.spec_num_leaves()),
        0 <= x < t.spec_nodes().len(),
    ensures
        updated_nodes(
            t.spec_hasher().leaf_fn(),
            t.spec_hasher().nodes_fn(),
            t.spec_arity(),
            t.spec_num_internal(),
            t.spec_first_last_level_leaf(),
            t.spec_nodes(),
            upds,
        ).len() == t.spec_nodes().len(),
        forall|c: int|
            0 <= c < combined_in_update(
                t.spec_hasher().leaf_fn(),
                t.spec_hasher().nodes_fn(),
                t.spec_arity(),
                t.spec_num_internal(),
                t.spec_first_last_level_leaf(),
                t.spec_nodes(),
                upds,
            ).len() ==> ancestor_of_update(
                upds,
                t.spec_num_internal(),
                #[trigger] combined_in_update(
                    t.spec_hasher().leaf_fn(),
                    t.spec_hasher().nodes_fn(),
                    t.spec_arity(),
                    t.spec_num_internal(),
                    t.spec_first_last_level_leaf(),
                    t.spec_nodes(),
                    upds,
                )[c],
                t.spec_arity(),
            ),
        (forall|j: int| 0 <= j < upds.len() ==> t.spec_num_internal() + (#[trigger] upds[j]).0 != x)
            && !ancestor_of_update(upds, t.spec_num_internal(), x, t.spec_arity()) ==> updated_nodes(
            t.spec_hasher().leaf_fn(),
            t.spec_hasher().nodes_fn(),
            t.spec_arity(),
            t.spec_num_internal(),
            t.spec_first_last_level_leaf(),
            t.spec_nodes(),
            upds,
        )[x] == t.spec_nodes()[x],
{
    let lf = t.spec_hasher().leaf_fn();
    let f = t.spec_hasher().nodes_fn();
    let k = t.spec_arity();
    let ni = t.spec_num_internal();
    let fll = t.spec_first_last_level_leaf();
    let nodes = t.spec_nodes();
    let len = nodes.len() as int;
    let all = combined_in_update(lf, f, k, ni, fll, nodes, upds);
    let keep = (forall|j: int| 0 <= j < upds.len() ==> ni + (#[trigger] upds[j]).0 != x) && !ancestor_of_update(
        upds,
        ni,
        x,
        k,
    );
    if fll > ni {
        let s = first_at_or_past(upds, fll - ni, 0);
        lemma_first_at_or_past(upds, fll - ni, 0);
        let du = upds.subrange(s, upds.len() as int);
        let uu = upds.subrange(0, s);
        let deep = leaf_entries(lf, k, ni, du);
        let upper = leaf_entries(lf, k, ni, uu);
        let (n1, out) = propagate(f, k, nodes, deep, 0, 0, Seq::empty());
        let queue = out + upper;
        assert forall|j: int| 0 <= j < deep.len() implies (#[trigger] deep[j]).0@ == ni + upds[s + j].0 && 0 <= deep[j].0@ < len by {
            assert(du[j] == upds[s + j]);
        }
        assert forall|j: int| 0 <= j < upper.len() implies (#[trigger] upper[j]).0@ == ni + upds[j].0 && 0 <= upper[j].0@ < len by {
            assert(uu[j] == upds[j]);
        }
        lemma_propagate_frame(f, k, nodes, deep, 0, 0, Seq::empty(), x);
        assert forall|o: int| 0 <= o < out.len() implies ancestor_of_update(upds, ni, (#[trigger] out[o]).0@, k)
            && 0 <= out[o].0@ < len by {
            let j = choose|j: int| 0 <= j < deep.len() && deep[j].0@ > 0 && parent_of(deep[j].0@, k) == out[o].0@;
            assert(is_ancestor(out[o].0@, ni + upds[s + j].0, k));
            lemma_parent_child(deep[j].0@, k);
        }
        assert forall|j: int| 0 <= j < queue.len() implies 0 <= (#[trigger] queue[j]).0@ < n1.len() by {
            if j >= out.len() {
                assert(queue[j] == upper[j - out.len()]);
            }
        }
        lemma_propagate_all_frame(f, k, n1, queue, nodes.len(), x);
        let rest = combined_all(f, k, n1, queue, nodes.len());
        let po = positions(out);
        assert(all == po + rest);
        // an ancestor of an entry of the queue is an ancestor of an updated leaf
        assert forall|c: int| ancestor_of_entry(queue, c, k) implies ancestor_of_update(upds, ni, c, k) by {
            let j = choose|j: int| 0 <= j < queue.len() && is_ancestor(c, queue[j].0@, k);
            if j < out.len() {
                let d = choose|d: int| 0 <= d < deep.len() && deep[d].0@ > 0 && parent_of(deep[d].0@, k) == out[j].0@;
                assert(is_ancestor(c, ni + upds[s + d].0, k));
            } else {
                assert(queue[j] == upper[j - out.len()]);
            }
        }
        assert forall|c: int| 0 <= c < all.len() implies ancestor_of_update(upds, ni, #[trigger] all[c], k) by {
            if c < po.len() {
                assert(po[c] == out[c].0@);
            } else {
                assert(all[c] == rest[c - po.len()]);
            }
        }
        if keep {
            assert forall|j: int| 0 <= j < deep.len() implies (#[trigger] deep[j]).0@ != x by {}
            assert(!entry_at(queue, x)) by {
                if entry_at(queue, x) {
                    let j = choose|j: int| 0 <= j < queue.len() && queue[j].0@ == x;
                    if j < out.len() {
                        assert(ancestor_of_update(upds, ni, out[j].0@, k));
                    } else {
                        assert(queue[j] == upper[j - out.len()]);
                    }
                }
            }
        }
    } else {
        let q = leaf_entries(lf, k, ni, upds);
        assert forall|j: int| 0 <= j < q.len() implies (#[trigger] q[j]).0@ == ni + upds[j].0 && 0 <= q[j].0@ < len by {}
        lemma_propagate_all_frame(f, k, nodes, q, nodes.len(), x);
        assert forall|c: int| ancestor_of_entry(q, c, k) implies ancestor_of_update(upds, ni, c, k) by {
            let j = choose|j: int| 0 <= j < q.len() && is_ancestor(c, q[j].0@, k);
        }
        if keep {
            assert(!entry_at(q, x));
        }
    }
}

/// After a batch update, each updated leaf holds the digest of its new data.
pub proof fn lemma_updated_leaf_digest<L, H: Copy, P: TreeHasherFunc<L, H>>(
    t: AbstractMerkle<L, H, P>,
    upds: Seq<(usize, L)>,
    j: int,
)
    requires
        t.wf(),
        updates_ok(upds, t.spec_num_leaves()),
        0 <= j < upds.len(),
    ensures
        updated_nodes(
            t.spec_hasher().leaf_fn(),
            t.spec_hasher().nodes_fn(),
            t.spec_arity(),
            t.spec_num_internal(),
            t.spec_first_last_level_leaf(),
            t.spec_nodes(),
            upds,
        )[t.spec_num_internal() + upds[j].0] == (t.spec_hasher().leaf_fn())(
            offset_of(t.spec_num_internal() + upds[j].0, t.spec_arity()) as usize,
            upds[j].1,
        ),
{
    let lf = t.spec_hasher().leaf_fn();
    let f = t.spec_hasher().nodes_fn();
    let k = t.spec_arity();
    let ni = t.spec_num_internal();
    let fll = t.spec_first_last_level_leaf();
    let nodes = t.spec_nodes();
    let len = nodes.len() as int;
    let x = ni + upds[j].0;
    assert forall|z: int| 0 < z < len implies #[trigger] parent_of(z, k) < ni by {
        lemma_div_is_ordered(z - 1, len - 2, k);
    }
    if fll > ni {
        let s = first_at_or_past(upds, fll - ni, 0);
        lemma_first_at_or_past(upds, fll - ni, 0);
        let du = upds.subrange(s, upds.len() as int);
        let uu = upds.subrange(0, s);
        let deep = leaf_entries(lf, k, ni, du);
        let upper = leaf_entries(lf, k, ni, uu);
        let (n1, out) = propagate(f, k, nodes, deep, 0, 0, Seq::empty());
        let queue = out + upper;
        assert forall|a: int| 0 <= a < deep.len() implies (#[trigger] deep[a]).0@ == ni + upds[s + a].0 && 0 <= deep[a].0@ < len by {
            assert(du[a] == upds[s + a]);
        }
        assert forall|a: int| 0 <= a < upper.len() implies (#[trigger] upper[a]).0@ == ni + upds[a].0 && 0 <= upper[a].0@ < len by {
            assert(uu[a] == upds[a]);
        }
        lemma_propagate_frame(f, k, nodes, deep, 0, 0, Seq::empty(), x);
        assert forall|o: int| 0 <= o < out.len() implies 0 <= (#[trigger] out[o]).0@ < len && out[o].0@ < ni by {
            let a = choose|a: int| 0 <= a < deep.len() && deep[a].0@ > 0 && parent_of(deep[a].0@, k) == out[o].0@;
            lemma_parent_child(deep[a].0@, k);
        }
        assert forall|a: int| 0 <= a < queue.len() implies 0 <= (#[trigger] queue[a]).0@ < n1.len() by {
            if a >= out.len() {
                assert(queue[a] == upper[a - out.len()]);
            }
        }
        if j >= s {
            let d = j - s;
            assert(deep[d].0@ == x);
            assert(du[d] == upds[j]);
            assert forall|a: int| 0 <= a < deep.len() && a != d implies (#[trigger] deep[a]).0@ != deep[d].0@ by {
                if a < d {
                    assert(upds[s + a].0 < upds[j].0);
                } else {
                    assert(upds[j].0 < upds[s + a].0);
                }
            }
            lemma_propagate_writes(f, k, nodes, deep, 0, 0, Seq::empty(), d);
            lemma_propagate_all_frame(f, k, n1, queue, nodes.len(), x);
            assert(!entry_at(queue, x)) by {
                if entry_at(queue, x) {
                    let a = choose|a: int| 0 <= a < queue.len() && queue[a].0@ == x;
                    if a >= out.len() {
                        assert(queue[a] == upper[a - out.len()]);
                        assert(upds[a - out.len()].0 < upds[j].0);
                    }
                }
            }
            assert(!ancestor_of_entry(queue, x, k)) by {
                if ancestor_of_entry(queue, x, k) {
                    let a = choose|a: int| 0 <= a < queue.len() && is_ancestor(x, queue[a].0@, k);
                    lemma_ancestor_below(x, queue[a].0@, k, len, ni);
                }
            }
        } else {
            let e = out.len() + j;
            assert(queue[e] == upper[j]);
            assert(uu[j] == upds[j]);
            assert forall|a: int| 0 <= a < queue.len() && a != e implies (#[trigger] queue[a]).0@ != queue[e].0@ by {
                if a >= out.len() {
                    assert(queue[a] == upper[a - out.len()]);
                    if a < e {
                        assert(upds[a - out.len()].0 < upds[j].0);
                    } else {
                        assert(upds[j].0 < upds[a - out.len()].0);
                    }
                }
            }
            lemma_propagate_all_writes(f, k, n1, queue, nodes.len(), e, ni);
        }
    } else {
        let q = leaf_entries(lf, k, ni, upds);
        assert forall|a: int| 0 <= a < q.len() implies (#[trigger] q[a]).0@ == ni + upds[a].0 && 0 <= q[a].0@ < len by {}
        assert forall|a: int| 0 <= a < q.len() && a != j implies (#[trigger] q[a]).0@ != q[j].0@ by {
            if a < j {
                assert(upds[a].0 < upds[j].0);
            } else {
                assert(upds[j].0 < upds[a].0);
            }
        }
        lemma_propagate_all_writes(f, k, nodes, q, nodes.len(), j, ni);
    }
}

/// The layout of a tree: every internal node has its first child inside the array, no leaf has
/// one, every non-root node's parent is internal, and the leaves sit on the last one or two
/// levels: with leaves on two levels, those before `first_last_level_leaf` at depth `d` and the
/// rest at depth `d + 1`, the deepest level; else all of them at depth `d`, the deepest level.
pub proof fn lemma_tree_layout<L, H: Copy, P: TreeHasherFunc<L, H>>(t: AbstractMerkle<L, H, P>)
    requires
        t.wf(),
    ensures
        t.spec_arity() >= 2,
        t.spec_hasher().arity() == t.spec_arity(),
        t.spec_nodes().len() == t.spec_num_internal() + t.spec_num_leaves(),
        t.spec_num_internal() <= t.spec_first_last_level_leaf() <= t.spec_nodes().len(),
        forall|i: int|
            0 <= i < t.spec_num_internal() ==> #[trigger] child_of(i, t.spec_arity(), 0) < t.spec_nodes().len(),
        forall|i: int|
            t.spec_num_internal() <= i < t.spec_nodes().len() ==> #[trigger] child_of(i, t.spec_arity(), 0)
                >= t.spec_nodes().len(),
        forall|i: int|
            0 < i < t.spec_nodes().len() ==> #[trigger] parent_of(i, t.spec_arity()) < t.spec_num_internal(),
        ({
            let d = leaf_level(t.spec_arity(), t.spec_num_leaves());
            let two = t.spec_first_last_level_leaf() > t.spec_num_internal();
            &&& forall|i: int|
                t.spec_num_internal() <= i < t.spec_first_last_level_leaf() ==> #[trigger] depth(i, t.spec_arity()) == d
            &&& forall|i: int|
                t.spec_first_last_level_leaf() <= i < t.spec_nodes().len() ==> #[trigger] depth(i, t.spec_arity())
                    == (if two { d + 1 } else { d })
            &&& forall|i: int|
                0 <= i < t.spec_nodes().len() ==> #[trigger] depth(i, t.spec_arity()) <= (if two { d + 1 } else { d })
        }),
{
    let k = t.spec_arity();
    let ni = t.spec_num_internal();
    let fll = t.spec_first_last_level_leaf();
    let len = t.spec_nodes().len() as int;
    let d = leaf_level(k, t.spec_num_leaves());
    let two = fll > ni;
    assert(leaves_on_levels(k, d, ni, fll, len));
    lemma_level_start_nonneg(k, d);
    lemma_level_start_nonneg(k, d + 1);
    if len > 1 {
        lemma_fundamental_div_mod(len - 2, k);
        lemma_mod_bound(len - 2, k);
        assert(ni * k >= len - 1) by (nonlinear_arith)
            requires
                len - 2 == k * ((len - 2) / k) + (len - 2) % k,
                (len - 2) % k < k,
                (len - 2) / k < ni,
                (len - 2) / k >= 0,
        ;
    }
    assert forall|i: int| 0 <= i < ni implies #[trigger] child_of(i, k, 0) < len by {
        assert(i * k <= (ni - 1) * k) by (nonlinear_arith)
            requires
                i <= ni - 1,
                k >= 2,
        ;
    }
    assert forall|i: int| ni <= i < len implies #[trigger] child_of(i, k, 0) >= len by {
        if len > 1 {
            assert(i * k >= ni * k) by (nonlinear_arith)
                requires
                    i >= ni,
                    k >= 2,
            ;
        }
    }
    assert forall|i: int| 0 < i < len implies #[trigger] parent_of(i, k) < ni by {
        lemma_div_is_ordered(i - 1, len - 2, k);
    }
    assert forall|i: int| ni <= i < fll implies #[trigger] depth(i, k) == d by {
        lemma_level_depth(k, d, i);
    }
    assert forall|i: int| fll <= i < len implies #[trigger] depth(i, k) == (if two { d + 1 } else { d }) by {
        if two {
            lemma_level_depth(k, d + 1, i);
        } else {
            lemma_level_depth(k, d, i);
        }
    }
    assert forall|i: int| 0 <= i < len implies #[trigger] depth(i, k) <= (if two { d + 1 } else { d }) by {
        let dd: nat = if two { d + 1 } else { d };
        lemma_depth_below(k, dd, i);
    }
}

/// Updating is deterministic: two trees with the same hashing rules, the same layout and the
/// same digests hold the same digests after the same batch of leaf updates.
pub proof fn lemma_update_deterministic<L, H: Copy, P: TreeHasherFunc<L, H>>(
    a: AbstractMerkle<L, H, P>,
    b: AbstractMerkle<L, H, P>,
    upds: Seq<(usize, L)>,
)
    requires
        a.wf(),
        b.wf(),
        a.same_shape(&b),
        a.spec_nodes() == b.spec_nodes(),
    ensures
        updated_nodes(
            a.spec_hasher().leaf_fn(),
            a.spec_hasher().nodes_fn(),
            a.spec_arity(),
            a.spec_num_internal(),
            a.spec_first_last_level_leaf(),
            a.spec_nodes(),
            upds,
        ) == updated_nodes(
            b.spec_hasher().leaf_fn(),
            b.spec_hasher().nodes_fn(),
            b.spec_arity(),
            b.spec_num_internal(),
            b.spec_first_last_level_leaf(),
            b.spec_nodes(),
            upds,
        ),
{
}

/// Leaf `p` sits at position `num_internal + p`, so the leaves occupy distinct positions, all
/// after the internal nodes and inside the array; every leaf's parent is an internal node, and
/// every node sits at an offset below `arity` under its parent.
pub proof fn lemma_leaf_layout<L, H: Copy, P: TreeHasherFunc<L, H>>(t: AbstractMerkle<L, H, P>)
    requires
        t.wf(),
    ensures
        forall|p: int|
            0 <= p < t.spec_num_leaves() ==> {
                let i = #[trigger] (t.spec_num_internal() + p);
                &&& t.spec_num_internal() <= i < t.spec_nodes().len()
                &&& (i != 0 ==> parent_of(i, t.spec_arity()) < t.spec_num_internal())
            },
        forall|i: int|
            0 < i < t.spec_nodes().len() ==> 0 <= #[trigger] offset_of(i, t.spec_arity()) < t.spec_arity(),
{
    let k = t.spec_arity();
    let len = t.spec_nodes().len() as int;
    assert forall|p: int| 0 <= p < t.spec_num_leaves() implies {
        let i = #[trigger] (t.spec_num_internal() + p);
        &&& t.spec_num_internal() <= i < t.spec_nodes().len()
        &&& (i != 0 ==> parent_of(i, t.spec_arity()) < t.spec_num_internal())
    } by {
        let i = t.spec_num_internal() + p;
        if i != 0 {
            lemma_div_is_ordered(i - 1, len - 2, k);
        }
    }
    assert forall|i: int| 0 < i < t.spec_nodes().len() implies 0 <= #[trigger] offset_of(i, t.spec_arity())
        < t.spec_arity() by {
        lemma_parent_child(i, k);
    }
}

impl<LeafDataType, HashType: Copy, Hasher: TreeHasherFunc<LeafDataType, HashType>> AbstractMerkle<
    LeafDataType,
    HashType,
    Hasher,
> {
    pub closed spec fn spec_arity(&self) -> int {
        self.arity as int
    }

    pub closed spec fn spec_hasher(&self) -> Hasher {
        self.hasher
    }

    pub closed spec fn spec_nodes(&self) -> Seq<HashType> {
        self.nodes@
    }

    pub closed spec fn spec_num_internal(&self) -> int {
        self.num_internal_nodes as int
    }

    pub closed spec fn spec_num_leaves(&self) -> int {
        self.num_leaves as int
    }

    pub closed spec fn spec_first_last_level_leaf(&self) -> int {
        self.first_last_level_leaf@
    }

    /// The tree's invariant: the layout of an arity-`k` tree with `num_leaves` leaves, and each
    /// node either blank or holding a digest of its kind (leaf or internal).
    pub closed spec fn wf(&self) -> bool {
        let len = self.nodes@.len();
        &&& self.arity >= 2
        &&& self.num_leaves >= 1
        &&& self.num_leaves * self.arity <= usize::MAX
        &&& self.num_internal_nodes <= self.num_leaves
        &&& len == self.num_internal_nodes + self.num_leaves
        &&& len <= usize::MAX
        &&& self.num_internal_nodes <= self.first_last_level_leaf@ <= len
        &&& (len <= 1 || (len - 2) / (self.arity as int) < self.num_internal_nodes)
        &&& (self.num_internal_nodes == 0 || (self.num_internal_nodes - 1) * self.arity + 1 < len)
        &&& leaves_on_levels(
            self.arity as int,
            leaf_level(self.arity as int, self.num_leaves as int),
            self.num_internal_nodes as int,
            self.first_last_level_leaf@,
            len as int,
        )
        &&& self.hasher.wf()
        &&& self.hasher.arity() == self.arity
        &&& forall|i: int|
            0 <= i < len ==> #[trigger] self.nodes@[i] == Hasher::blank() || slot_ok::<
                LeafDataType,
                HashType,
                Hasher,
            >(self.num_internal_nodes as int, i, self.nodes@[i])
    }

    /// Whether `queue` can be propagated: strictly increasing positions inside the tree, each
    /// with a digest of the kind its position takes.
    pub closed spec fn queue_ok(&self, queue: Seq<(NodeIndex, HashType)>) -> bool {
        &&& ascending(queue)
        &&& forall|j: int|
            0 <= j < queue.len() ==> {
                let e = #[trigger] queue[j];
                &&& e.0@ < self.nodes@.len()
                &&& slot_ok::<LeafDataType, HashType, Hasher>(self.num_internal_nodes as int, e.0@, e.1)
            }
    }

    /// Whether `self` is a new tree of the given arity with `num_leaves` leaves: laid out as
    /// `internal_count` and `second_to_last_count` say, every node blank.
    pub open spec fn is_new(&self, arity: int, num_leaves: int) -> bool {
        &&& self.wf()
        &&& self.spec_arity() == arity
        &&& self.spec_num_leaves() == num_leaves
        &&& self.spec_hasher().arity() == arity
        &&& self.spec_num_internal() == internal_count(arity, num_leaves)
        &&& self.spec_first_last_level_leaf() == internal_count(arity, num_leaves)
            + second_to_last_count(arity, num_leaves)
        &&& self.spec_nodes().len() == self.spec_num_internal() + num_leaves
        &&& forall|i: int| 0 <= i < self.spec_nodes().len() ==> #[trigger] self.spec_nodes()[i] == Hasher::blank()
    }

    /// Whether `self` and `other` have the same shape and the same hashing rules.
    pub open spec fn same_shape(&self, other: &Self) -> bool {
        &&& self.spec_arity() == other.spec_arity()
        &&& self.spec_num_internal() == other.spec_num_internal()
        &&& self.spec_num_leaves() == other.spec_num_leaves()
        &&& self.spec_first_last_level_leaf() == other.spec_first_last_level_leaf()
        &&& self.spec_nodes().len() == other.spec_nodes().len()
        &&& self.spec_hasher().arity() == other.spec_hasher().arity()
        &&& self.spec_hasher().leaf_fn() == other.spec_hasher().leaf_fn()
        &&& self.spec_hasher().nodes_fn() == other.spec_hasher().nodes_fn()
    }

    pub fn num_leaves(&self) -> (r: usize)
        ensures
            r == self.spec_num_leaves(),
    {
        self.num_leaves
    }

    fn child_offset(&self, node: &NodeIndex) -> (r: usize)
        requires
            self.arity >= 2,
        ensures
            r == offset_of(node@, self.arity as int),
            r < self.arity,
    {
        node.child_offset(self.arity)
    }

    fn parent_node(&self, node: &NodeIndex) -> (r: NodeIndex)
        requires
            self.arity >= 2,
            node@ != 0,
        ensures
            r@ == parent_of(node@, self.arity as int),
            r@ < node@,
    {
        node.parent(self.arity)
    }

    fn child_node(&self, node: &NodeIndex, i: usize) -> (r: NodeIndex)
        requires
            self.wf(),
            i < self.arity,
            node@ < self.num_internal_nodes,
        ensures
            r@ == child_of(node@, self.arity as int, i as int),
    {
        proof {
            assert(node@ * self.arity + i + 1 <= self.num_leaves * self.arity) by (nonlinear_arith)
                requires
                    node@ < self.num_internal_nodes,
                    self.num_internal_nodes <= self.num_leaves,
                    i < self.arity,
            ;
        }
        node.child(self.arity, i)
    }

    /// The digest at position `node`, if the tree has one there.
    pub fn get_node_hash(&self, node: &NodeIndex) -> (r: Option<HashType>)
        ensures
            node@ < self.spec_nodes().len() ==> r == Some(self.spec_nodes()[node@]),
            node@ >= self.spec_nodes().len() ==> r.is_none(),
    {
        if node.0 < self.nodes.len() {
            Some(self.nodes[node.0])
        } else {
            None
        }
    }

    fn set_node_hash(&mut self, node: &NodeIndex, hash: HashType)
        requires
            node@ < old(self).nodes@.len(),
        ensures
            final(self).nodes@ == old(self).nodes@.update(node@, hash),
            final(self).arity == old(self).arity,
            final(self).num_internal_nodes == old(self).num_internal_nodes,
            final(self).num_leaves == old(self).num_leaves,
            final(self).first_last_level_leaf == old(self).first_last_level_leaf,
            final(self).hasher == old(self).hasher,
    {
        self.nodes.set(node.0, hash);
    }

    /// Whether some leaves sit on the second-to-last level and others on the last.
    pub fn has_leaves_on_two_levels(&self) -> (r: bool)
        ensures
            r == (self.spec_first_last_level_leaf() > self.spec_num_internal()),
    {
        self.first_last_level_leaf.0 > self.num_internal_nodes
    }

    /// Whether the leaf at position `leaf_idx` sits on the last level.
    pub fn is_last_level_leaf(&self, leaf_idx: &NodeIndex) -> (r: bool)
        ensures
            r == (leaf_idx@ >= self.spec_first_last_level_leaf()),
    {
        leaf_idx.0 >= self.first_last_level_leaf.0
    }

    /// The position in the array of the leaf numbered `leaf_pos`.
    pub fn get_leaf_idx(&self, leaf_pos: usize) -> (r: NodeIndex)
        requires
            self.wf(),
            leaf_pos < self.spec_num_leaves(),
        ensures
            r@ == self.spec_num_internal() + leaf_pos,
            r@ < self.spec_nodes().len(),
    {
        NodeIndex(self.num_internal_nodes + leaf_pos)
    }

    /// Settles parent `parent_idx` with its changed children `new_siblings`: computes its new
    /// digest from its old one and its children's old ones, then writes the children.
    fn settle_parent(&mut self, parent_idx: NodeIndex, new_siblings: &Vec<(usize, HashType)>) -> (r: HashType)
        requires
            old(self).wf(),
            parent_idx@ < old(self).num_internal_nodes,
            new_siblings@.len() > 0,
            offsets_ascending(new_siblings@, old(self).arity as int),
            forall|t: int|
                0 <= t < new_siblings@.len() ==> {
                    let c = child_of(parent_idx@, old(self).arity as int, (#[trigger] new_siblings@[t]).0 as int);
                    &&& c < old(self).nodes@.len()
                    &&& slot_ok::<LeafDataType, HashType, Hasher>(
                        old(self).num_internal_nodes as int,
                        c,
                        new_siblings@[t].1,
                    )
                },
        ensures
            final(self).wf(),
            final(self).same_shape(old(self)),
            flush(old(self).hasher.nodes_fn(), old(self).arity as int, old(self).nodes@, parent_idx@, new_siblings@)
                == (final(self).nodes@, seq![(parent_idx, r)]),
            Hasher::node_kind(r),
            final(self).hasher.computations() == saturating(
                old(self).hasher.computations() + Hasher::nodes_cost(
                    old(self).arity as nat,
                    child_count(old(self).nodes@.len() as int, old(self).arity as int, parent_idx@),
                    new_siblings@.len() as nat,
                ),
            ),
    {
        let ghost nodes0 = self.nodes@;
        let ghost k = self.arity as int;
        let ghost p = parent_idx@;
        // every old child digest, up to the first child that does not exist
        let mut old_siblings: Vec<HashType> = Vec::with_capacity(self.arity);
        let mut i: usize = 0;
        let mut present = true;
        let ghost first = p * k + 1;
        while present && i < self.arity
            invariant
                self.wf(),
                self.nodes@ == nodes0,
                k == self.arity,
                p == parent_idx@,
                p < self.num_internal_nodes,
                first == p * k + 1,
                i <= self.arity,
                old_siblings@.len() == i,
                !present ==> first + i >= nodes0.len(),
                i > 0 ==> first + i <= nodes0.len(),
                forall|t: int| 0 <= t < i ==> old_siblings@[t] == #[trigger] nodes0[first + t],
            decreases self.arity - i + (if present { 1int } else { 0int }),
        {
            let child_idx = self.child_node(&parent_idx, i);
            match self.get_node_hash(&child_idx) {
                Some(h) => {
                    old_siblings.push(h);
                    i += 1;
                },
                None => {
                    present = false;
                },
            }
        }
        proof {
            if first >= nodes0.len() {
                assert(old_siblings@ =~= children_of(nodes0, k, p));
            } else {
                let last = if first + k <= nodes0.len() { first + k } else { nodes0.len() as int };
                assert(i == last - first);
                let sub = nodes0.subrange(first, last);
                assert forall|t: int| 0 <= t < i implies old_siblings@[t] == sub[t] by {
                    assert(old_siblings@[t] == nodes0[first + t]);
                }
                assert(old_siblings@ =~= sub);
            }
        }
        let old_parent = self.nodes[parent_idx.0];
        proof {
            assert(offsets_distinct(new_siblings@, old_siblings@.len() as int)) by {
                assert forall|j: int, l: int|
                    0 <= j < new_siblings@.len() && 0 <= l < new_siblings@.len() && j != l implies (#[trigger] new_siblings@[j]).0
                        != (#[trigger] new_siblings@[l]).0 by {
                    if j < l {
                        assert(new_siblings@[j].0 < new_siblings@[l].0);
                    } else {
                        assert(new_siblings@[l].0 < new_siblings@[j].0);
                    }
                }
            }
        }
        proof {
            assert(old_siblings@.len() == child_count(nodes0.len() as int, k, p));
        }
        let hash = self.hasher.hash_nodes(old_parent, old_siblings, new_siblings);
        let ghost counted = self.hasher.computations();
        let mut t: usize = 0;
        while t < new_siblings.len()
            invariant
                t <= new_siblings@.len(),
                self.wf(),
                self.nodes@ == write_children(nodes0, k, p, new_siblings@.subrange(0, t as int)),
                self.same_shape(&*old(self)),
                self.hasher.computations() == counted,
                self.nodes@.len() == nodes0.len(),
                k == self.arity,
                p == parent_idx@,
                p < self.num_internal_nodes,
                offsets_ascending(new_siblings@, k),
                forall|t: int|
                    0 <= t < new_siblings@.len() ==> {
                        let c = child_of(p, k, (#[trigger] new_siblings@[t]).0 as int);
                        &&& c < nodes0.len()
                        &&& slot_ok::<LeafDataType, HashType, Hasher>(
                            self.num_internal_nodes as int,
                            c,
                            new_siblings@[t].1,
                        )
                    },
            decreases new_siblings@.len() - t,
        {
            let (offset, h) = new_siblings[t];
            let child_idx = self.child_node(&parent_idx, offset);
            self.set_node_hash(&child_idx, h);
            proof {
                assert(new_siblings@.subrange(0, t + 1).drop_last() =~= new_siblings@.subrange(0, t as int));
            }
            t += 1;
        }
        proof {
            assert(new_siblings@.subrange(0, new_siblings@.len() as int) =~= new_siblings@);
        }
        hash
    }

    /// Takes the front entry off `queue` and records it, by offset, among `siblings`.
    fn pop_sibling(
        &self,
        queue: &mut VecDeque<(NodeIndex, HashType)>,
        siblings: &mut Vec<(usize, HashType)>,
    ) -> (r: NodeIndex)
        requires
            old(queue)@.len() > 0,
            self.arity >= 2,
        ensures
            r == old(queue)@[0].0,
            final(queue)@ == old(queue)@.subrange(1, old(queue)@.len() as int),
            final(siblings)@ == old(siblings)@.push(
                (offset_of(r@, self.arity as int) as usize, old(queue)@[0].1),
            ),
    {
        let sib = queue.pop_front().unwrap();
        let sib_idx = sib.0;
        let sib_offset = self.child_offset(&sib_idx);
        siblings.push((sib_offset, sib.1));
        sib_idx
    }

    /// Runs one pass of `propagate` over `dequeue`, emptying it: the parents' new entries are
    /// appended to `enqueue`, in increasing order.
    fn _process_update_queue(
        &mut self,
        dequeue: &mut VecDeque<(NodeIndex, HashType)>,
        enqueue: &mut VecDeque<(NodeIndex, HashType)>,
    )
        requires
            old(self).wf(),
            old(self).queue_ok(old(dequeue)@),
        ensures
            final(self).wf(),
            final(self).same_shape(old(self)),
            final(dequeue)@.len() == 0,
            ({
                let (nodes, out) = propagate(
                    old(self).hasher.nodes_fn(),
                    old(self).arity as int,
                    old(self).nodes@,
                    old(dequeue)@,
                    0,
                    0,
                    Seq::empty(),
                );
                &&& final(self).nodes@ == nodes
                &&& final(enqueue)@ == old(enqueue)@ + out
                &&& final(self).queue_ok(out)
                &&& forall|j: int|
                    0 <= j < out.len() ==> (#[trigger] out[j]).0@ < old(self).num_internal_nodes
                        && out[j].0@ < old(dequeue)@.last().0@
            }),
            final(self).hasher.computations() == saturating(
                old(self).hasher.computations() + pass_cost(
                    cost_of::<LeafDataType, HashType, Hasher>(old(self).arity as nat),
                    old(self).arity as int,
                    old(self).nodes@.len() as int,
                    old(dequeue)@,
                    0,
                    0,
                    0,
                ),
            ),
    {
        let ghost s0 = *self;
        let ghost q0 = dequeue@;
        let ghost enq0 = enqueue@;
        let ghost f = self.hasher.nodes_fn();
        let ghost k = self.arity as int;
        let ghost target = propagate(f, k, self.nodes@, q0, 0, 0, Seq::empty());
        let ghost cost = cost_of::<LeafDataType, HashType, Hasher>(self.arity as nat);
        let ghost len = self.nodes@.len() as int;
        let ghost c0 = self.hasher.computations();
        let ghost mut done: nat = 0;
        proof {
            self.hasher.lemma_computations_bounded();
        }
        let mut new_siblings: Vec<(usize, HashType)> = Vec::with_capacity(self.arity);
        let mut parent_idx = NodeIndex::root_node();
        proof {
            assert(q0.subrange(0, q0.len() as int) =~= q0);
        }
        while dequeue.len() > 0
            invariant
                self.wf(),
                self.same_shape(&s0),
                s0.queue_ok(q0),
                f == self.hasher.nodes_fn(),
                k == self.arity,
                dequeue@.len() <= q0.len(),
                dequeue@ == q0.subrange(q0.len() - dequeue@.len(), q0.len() as int),
                target.0 == propagate(
                    f,
                    k,
                    self.nodes@,
                    q0,
                    q0.len() - dequeue@.len(),
                    parent_idx@,
                    new_siblings@,
                ).0,
                cost == cost_of::<LeafDataType, HashType, Hasher>(self.arity as nat),
                len == self.nodes@.len(),
                pass_cost(cost, k, len, q0, 0, 0, 0) == done + pass_cost(
                    cost,
                    k,
                    len,
                    q0,
                    q0.len() - dequeue@.len(),
                    parent_idx@,
                    new_siblings@.len(),
                ),
                self.hasher.computations() == saturating(c0 + done),
                enq0 + target.1 == enqueue@ + propagate(
                    f,
                    k,
                    self.nodes@,
                    q0,
                    q0.len() - dequeue@.len(),
                    parent_idx@,
                    new_siblings@,
                ).1,
                new_siblings@.len() > 0 ==> {
                    let i = q0.len() - dequeue@.len();
                    &&& i > 0
                    &&& q0[i - 1].0@ != 0
                    &&& parent_idx@ == parent_of(q0[i - 1].0@, k)
                    &&& new_siblings@.last().0 == offset_of(q0[i - 1].0@, k)
                    &&& parent_idx@ < self.num_internal_nodes
                },
                offsets_ascending(new_siblings@, k),
                forall|t: int|
                    0 <= t < new_siblings@.len() ==> {
                        let c = child_of(parent_idx@, k, (#[trigger] new_siblings@[t]).0 as int);
                        &&& c < self.nodes@.len()
                        &&& slot_ok::<LeafDataType, HashType, Hasher>(
                            self.num_internal_nodes as int,
                            c,
                            new_siblings@[t].1,
                        )
                    },
                new_siblings@.len() == 0 ==> enqueue@ == enq0,
                enqueue@.len() >= enq0.len(),
                enq0 == enqueue@.subrange(0, enq0.len() as int),
                forall|j: int|
                    enq0.len() <= j < enqueue@.len() ==> {
                        let e = #[trigger] enqueue@[j];
                        &&& e.0@ < self.num_internal_nodes
                        &&& Hasher::node_kind(e.1)
                        &&& e.0@ < q0.last().0@
                        &&& (new_siblings@.len() > 0 ==> e.0@ < parent_idx@)
                    },
                forall|a: int, b: int|
                    enq0.len() <= a < b < enqueue@.len() ==> (#[trigger] enqueue@[a]).0@
                        < (#[trigger] enqueue@[b]).0@,
            decreases dequeue@.len(),
        {
            let ghost i = q0.len() - dequeue@.len();
            let ghost nodes_before = self.nodes@;
            let ghost news_before = new_siblings@;
            let ghost enq_before = enqueue@;
            let ghost gp_before = parent_idx@;
            let front = dequeue[0].0;
            proof {
                assert(dequeue@[0] == q0[i]);
                if i > 0 {
                    assert(q0[i - 1].0@ < q0[i].0@);
                }
                if i + 1 < q0.len() {
                    assert(q0[i].0@ < q0[q0.len() - 1].0@);
                }
            }
            let ghost cnt = new_siblings@.len();
            if front.is_root() {
                if new_siblings.len() > 0 {
                    let h = self.settle_parent(parent_idx, &new_siblings);
                    enqueue.push_back((parent_idx, h));
                    proof {
                        lemma_saturating_add(c0 + done, cost(child_count(len, k, gp_before), cnt));
                        done = done + cost(child_count(len, k, gp_before), cnt);
                    }
                }
                let entry = dequeue.pop_front().unwrap();
                new_siblings.clear();
                parent_idx = NodeIndex::root_node();
                self.set_node_hash(&entry.0, entry.1);
                proof {
                    assert(enqueue@ =~= enq_before + flush(f, k, nodes_before, gp_before, news_before).1);
                    assert(enq0 + target.1 =~= enqueue@ + propagate(
                        f,
                        k,
                        self.nodes@,
                        q0,
                        i + 1,
                        0,
                        Seq::empty(),
                    ).1);
                    assert(enqueue@ =~= enq0);
                }
            } else if new_siblings.len() > 0 && self.parent_node(&front) == parent_idx {
                let _ = self.pop_sibling(dequeue, &mut new_siblings);
                proof {
                    lemma_parent_child(front@, k);
                    lemma_parent_child(q0[i - 1].0@, k);
                    assert(offset_of(front@, k) == front@ - (parent_idx@ * k + 1));
                    assert(offset_of(q0[i - 1].0@, k) == q0[i - 1].0@ - (parent_idx@ * k + 1));
                }
            } else {
                if new_siblings.len() > 0 {
                    let h = self.settle_parent(parent_idx, &new_siblings);
                    enqueue.push_back((parent_idx, h));
                    proof {
                        lemma_saturating_add(c0 + done, cost(child_count(len, k, gp_before), cnt));
                        done = done + cost(child_count(len, k, gp_before), cnt);
                    }
                }
                new_siblings.clear();
                parent_idx = self.parent_node(&front);
                let _ = self.pop_sibling(dequeue, &mut new_siblings);
                proof {
                    lemma_parent_child(front@, k);
                    // the parent of any node is an internal node
                    lemma_div_is_ordered(front@ - 1, self.nodes@.len() - 2, k);
                    if news_before.len() > 0 {
                        lemma_div_is_ordered(q0[i - 1].0@ - 1, front@ - 1, k);
                        assert(gp_before < parent_idx@);
                        assert(q0[i - 1].0@ <= q0.last().0@);
                        lemma_parent_child(q0[i - 1].0@, k);
                    }
                    assert forall|j: int| enq0.len() <= j < enqueue@.len() implies {
                        let e = #[trigger] enqueue@[j];
                        &&& e.0@ < self.num_internal_nodes
                        &&& Hasher::node_kind(e.1)
                        &&& e.0@ < q0.last().0@
                        &&& (new_siblings@.len() > 0 ==> e.0@ < parent_idx@)
                    } by {
                        if j < enq_before.len() {
                            assert(enqueue@[j] == enq_before[j]);
                        }
                    }
                    assert(enqueue@ =~= enq_before + flush(f, k, nodes_before, gp_before, news_before).1);
                    let (n1, out1) = flush(f, k, nodes_before, gp_before, news_before);
                    let (n2, out2) = propagate(f, k, n1, q0, i + 1, parent_idx@, new_siblings@);
                    assert(enq0 + target.1 =~= enqueue@ + out2);
                }
            }
        }
        let ghost enq_before = enqueue@;
        let ghost cnt = new_siblings@.len();
        if new_siblings.len() > 0 {
            let h = self.settle_parent(parent_idx, &new_siblings);
            enqueue.push_back((parent_idx, h));
            proof {
                lemma_saturating_add(c0 + done, cost(child_count(len, k, parent_idx@), cnt));
                let i = q0.len() - 1;
                assert(q0[i] == q0.last());
                lemma_parent_child(q0[i].0@, k);
            }
        }
        proof {
            assert(enqueue@ =~= enq0 + target.1);
            let out = target.1;
            assert forall|j: int| 0 <= j < out.len() implies out[j] == enqueue@[enq0.len() + j] by {}
            assert forall|j: int| 0 <= j < out.len() implies {
                let e = #[trigger] out[j];
                &&& e.0@ < self.nodes@.len()
                &&& slot_ok::<LeafDataType, HashType, Hasher>(self.num_internal_nodes as int, e.0@, e.1)
            } by {
                assert(enqueue@[enq0.len() + j] == out[j]);
                if j + enq0.len() < enq_before.len() {
                    assert(enqueue@[enq0.len() + j] == enq_before[enq0.len() + j]);
                }
            }
            assert forall|a: int, b: int| 0 <= a < b < out.len() implies (#[trigger] out[a]).0@
                < (#[trigger] out[b]).0@ by {
                assert(enqueue@[enq0.len() + a] == out[a]);
                assert(enqueue@[enq0.len() + b] == out[b]);
            }
        }
    }

    /// Digests each updated leaf, in order, into an entry of the queue.
    fn _queuefy(&mut self, upds: Vec<(usize, LeafDataType)>) -> (r: VecDeque<(NodeIndex, HashType)>)
        requires
            old(self).wf(),
            updates_ok(upds@, old(self).num_leaves as int),
        ensures
            final(self).wf(),
            final(self).same_shape(old(self)),
            final(self).nodes@ == old(self).nodes@,
            r@ == leaf_entries(
                old(self).hasher.leaf_fn(),
                old(self).arity as int,
                old(self).num_internal_nodes as int,
                upds@,
            ),
            final(self).queue_ok(r@),
            final(self).hasher.computations() == saturating(
                old(self).hasher.computations() + upds@.len() * Hasher::leaf_cost(),
            ),
    {
        let ghost s0 = *self;
        let ghost u0 = upds@;
        let ghost c0 = self.hasher.computations();
        proof {
            self.hasher.lemma_computations_bounded();
        }
        let ghost lf = self.hasher.leaf_fn();
        let ghost k = self.arity as int;
        let ghost ni = self.num_internal_nodes as int;
        let mut upds = upds;
        let mut queue: VecDeque<(NodeIndex, HashType)> = VecDeque::new();
        proof {
            assert(u0.subrange(0, u0.len() as int) =~= u0);
            assert(queue@ =~= leaf_entries(lf, k, ni, u0.subrange(u0.len() as int, u0.len() as int)));
        }
        // the leaves are taken from the back, so that each moves into the queue as it is
        while upds.len() > 0
            invariant
                self.wf(),
                self.same_shape(&s0),
                self.nodes@ == s0.nodes@,
                lf == self.hasher.leaf_fn(),
                k == self.arity,
                ni == self.num_internal_nodes,
                updates_ok(u0, self.num_leaves as int),
                upds@.len() <= u0.len(),
                upds@ == u0.subrange(0, upds@.len() as int),
                queue@ == leaf_entries(lf, k, ni, u0.subrange(upds@.len() as int, u0.len() as int)),
                forall|j: int| 0 <= j < queue@.len() ==> Hasher::leaf_kind(#[trigger] queue@[j].1),
                self.hasher.computations() == saturating(
                    c0 + ((u0.len() - upds@.len()) as nat) * Hasher::leaf_cost(),
                ),
            decreases upds@.len(),
        {
            let ghost j = upds@.len() - 1;
            let (leaf_pos, leaf_data) = upds.pop().unwrap();
            proof {
                assert(u0[j] == (leaf_pos, leaf_data));
            }
            let leaf_idx = self.get_leaf_idx(leaf_pos);
            let child_offset: usize = self.child_offset(&leaf_idx);
            let ghost done: nat = (u0.len() - upds@.len() - 1) as nat;
            let h = self.hasher.hash_leaf_data(child_offset, leaf_data);
            proof {
                lemma_saturating_add(c0 + done * Hasher::leaf_cost(), Hasher::leaf_cost());
                assert(done * Hasher::leaf_cost() + Hasher::leaf_cost() == (done + 1) * Hasher::leaf_cost())
                    by (nonlinear_arith);
            }
            let ghost q_before = queue@;
            queue.push_front((leaf_idx, h));
            proof {
                assert forall|j: int| 0 <= j < queue@.len() implies Hasher::leaf_kind(#[trigger] queue@[j].1) by {
                    if j > 0 {
                        assert(queue@[j] == q_before[j - 1]);
                    }
                }
                assert(upds@ =~= u0.subrange(0, upds@.len() as int));
                assert(queue@ =~= leaf_entries(lf, k, ni, u0.subrange(j, u0.len() as int)));
            }
        }
        proof {
            assert(u0.subrange(0, u0.len() as int) =~= u0);
            let q = queue@;
            assert forall|a: int, b: int| 0 <= a < b < q.len() implies (#[trigger] q[a]).0@
                < (#[trigger] q[b]).0@ by {
                assert(u0[a].0 < u0[b].0);
            }
            assert forall|j: int| 0 <= j < q.len() implies {
                let e = #[trigger] q[j];
                &&& e.0@ < self.nodes@.len()
                &&& slot_ok::<LeafDataType, HashType, Hasher>(self.num_internal_nodes as int, e.0@, e.1)
            } by {
                assert(u0[j].0 < self.num_leaves);
            }
        }
        queue
    }

    /// Digests the batch `updates` and returns the queue of entries left to propagate. When
    /// leaves sit on two levels, the updated leaves of the last level are first settled into
    /// their parents, which are then queued ahead of the updated leaves of the level above.
    pub fn preprocess_leaves(&mut self, updates: Vec<(usize, LeafDataType)>) -> (r: VecDeque<
        (NodeIndex, HashType),
    >)
        requires
            old(self).wf(),
            updates_ok(updates@, old(self).spec_num_leaves()),
        ensures
            final(self).wf(),
            final(self).same_shape(old(self)),
            (final(self).spec_nodes(), r@) == preprocessed(
                old(self).spec_hasher().leaf_fn(),
                old(self).spec_hasher().nodes_fn(),
                old(self).spec_arity(),
                old(self).spec_num_internal(),
                old(self).spec_first_last_level_leaf(),
                old(self).spec_nodes(),
                updates@,
            ),
            final(self).queue_ok(r@),
            final(self).spec_hasher().computations() == saturating(
                old(self).spec_hasher().computations() + preprocess_cost(
                    Hasher::leaf_cost(),
                    cost_of::<LeafDataType, HashType, Hasher>(old(self).spec_arity() as nat),
                    old(self).spec_hasher().leaf_fn(),
                    old(self).spec_arity(),
                    old(self).spec_num_internal(),
                    old(self).spec_first_last_level_leaf(),
                    old(self).spec_nodes(),
                    updates@,
                ),
            ),
    {
        let ghost u0 = updates@;
        let ghost c0 = self.hasher.computations();
        let mut updates = updates;
        if self.has_leaves_on_two_levels() {
            // the first update of a leaf on the last level, or the end of the batch
            let mut split: usize = updates.len();
            let mut j: usize = 0;
            let mut found = false;
            while j < updates.len() && !found
                invariant
                    self.wf(),
                    updates@ == u0,
                    updates_ok(u0, self.num_leaves as int),
                    j <= updates@.len(),
                    found ==> split < u0.len(),
                    !found ==> split == u0.len(),
                    found ==> split == first_at_or_past(
                        u0,
                        self.first_last_level_leaf@ - self.num_internal_nodes,
                        0,
                    ),
                    !found ==> first_at_or_past(
                        u0,
                        self.first_last_level_leaf@ - self.num_internal_nodes,
                        0,
                    ) == first_at_or_past(
                        u0,
                        self.first_last_level_leaf@ - self.num_internal_nodes,
                        j as int,
                    ),
                decreases updates@.len() - j + (if found { 0int } else { 1int }),
            {
                let leaf_idx = self.get_leaf_idx(updates[j].0);
                if self.is_last_level_leaf(&leaf_idx) {
                    split = j;
                    found = true;
                } else {
                    j += 1;
                }
            }
            let last = updates.split_off(split);
            let ghost nl = last@.len();
            let ghost nu = updates@.len();
            let mut tmp_queue = self._queuefy(last);
            let ghost c1 = self.hasher.computations();
            let ghost pc = pass_cost(
                cost_of::<LeafDataType, HashType, Hasher>(self.arity as nat),
                self.arity as int,
                self.nodes@.len() as int,
                tmp_queue@,
                0,
                0,
                0,
            );
            let mut upd_queue: VecDeque<(NodeIndex, HashType)> = VecDeque::new();
            self._process_update_queue(&mut tmp_queue, &mut upd_queue);
            let mut upper = self._queuefy(updates);
            proof {
                let lc = Hasher::leaf_cost();
                lemma_saturating_add(c0 + nl * lc, pc);
                lemma_saturating_add(c0 + nl * lc + pc, nu * lc);
                assert(nl * lc + nu * lc == (nl + nu) * lc) by (nonlinear_arith);
                assert(nl + nu == u0.len());
            }
            let ghost out = upd_queue@;
            let ghost up = upper@;
            upd_queue.append(&mut upper);
            proof {
                let q = upd_queue@;
                assert forall|a: int, b: int| 0 <= a < b < q.len() implies (#[trigger] q[a]).0@
                    < (#[trigger] q[b]).0@ by {
                    if b >= out.len() && a < out.len() {
                        assert(q[a] == out[a]);
                        assert(q[b] == up[b - out.len()]);
                    } else if a >= out.len() {
                        assert(q[a] == up[a - out.len()]);
                        assert(q[b] == up[b - out.len()]);
                    } else {
                        assert(q[a] == out[a]);
                        assert(q[b] == out[b]);
                    }
                }
                assert forall|j: int| 0 <= j < q.len() implies {
                    let e = #[trigger] q[j];
                    &&& e.0@ < self.nodes@.len()
                    &&& slot_ok::<LeafDataType, HashType, Hasher>(self.num_internal_nodes as int, e.0@, e.1)
                } by {
                    if j < out.len() {
                        assert(q[j] == out[j]);
                    } else {
                        assert(q[j] == up[j - out.len()]);
                    }
                }
            }
            upd_queue
        } else {
            self._queuefy(updates)
        }
    }

    /// Propagates a queue made by `preprocess_leaves` up to the root.
    pub fn update_preprocessed_leaves(&mut self, curr_updates: VecDeque<(NodeIndex, HashType)>)
        requires
            old(self).wf(),
            old(self).queue_ok(curr_updates@),
        ensures
            final(self).wf(),
            final(self).same_shape(old(self)),
            final(self).spec_nodes() == propagate_all(
                old(self).spec_hasher().nodes_fn(),
                old(self).spec_arity(),
                old(self).spec_nodes(),
                curr_updates@,
                old(self).spec_nodes().len(),
            ),
            final(self).spec_hasher().computations() == saturating(
                old(self).spec_hasher().computations() + cost_all(
                    old(self).spec_hasher().nodes_fn(),
                    cost_of::<LeafDataType, HashType, Hasher>(old(self).spec_arity() as nat),
                    old(self).spec_arity(),
                    old(self).spec_nodes(),
                    curr_updates@,
                    old(self).spec_nodes().len(),
                ),
            ),
    {
        let ghost s0 = *self;
        let ghost f = self.hasher.nodes_fn();
        let ghost k = self.arity as int;
        let ghost target = propagate_all(f, k, self.nodes@, curr_updates@, self.nodes@.len());
        let ghost mut bound: nat = self.nodes@.len();
        let ghost cost = cost_of::<LeafDataType, HashType, Hasher>(self.arity as nat);
        let ghost target_cost = cost_all(f, cost, k, self.nodes@, curr_updates@, self.nodes@.len());
        let ghost c0 = self.hasher.computations();
        let ghost mut done: nat = 0;
        proof {
            self.hasher.lemma_computations_bounded();
        }
        let mut queue = curr_updates;
        while queue.len() > 0
            invariant
                self.wf(),
                self.same_shape(&s0),
                f == self.hasher.nodes_fn(),
                k == self.arity,
                self.queue_ok(queue@),
                forall|j: int| 0 <= j < queue@.len() ==> (#[trigger] queue@[j]).0@ < bound,
                target == propagate_all(f, k, self.nodes@, queue@, bound),
                cost == cost_of::<LeafDataType, HashType, Hasher>(self.arity as nat),
                target_cost == done + cost_all(f, cost, k, self.nodes@, queue@, bound),
                self.hasher.computations() == saturating(c0 + done),
            decreases bound,
        {
            proof {
                assert(queue@[0].0@ < bound);
            }
            let mut next: VecDeque<(NodeIndex, HashType)> = VecDeque::new();
            let ghost q = queue@;
            let ghost step = pass_cost(cost, k, self.nodes@.len() as int, q, 0, 0, 0);
            self._process_update_queue(&mut queue, &mut next);
            proof {
                lemma_saturating_add(c0 + done, step);
                done = done + step;
                assert(q.last() == q[q.len() - 1]);
                assert(q[q.len() - 1].0@ < bound);
                bound = (bound - 1) as nat;
            }
            queue = next;
        }
    }

    /// Applies the batch `new_leaves`: each listed leaf gets the digest of its new data, and
    /// every ancestor of an updated leaf is recomputed, once, up to the root.
    pub fn update_leaves(&mut self, new_leaves: Vec<(usize, LeafDataType)>)
        requires
            old(self).wf(),
            updates_ok(new_leaves@, old(self).spec_num_leaves()),
        ensures
            final(self).wf(),
            final(self).same_shape(old(self)),
            final(self).spec_nodes() == updated_nodes(
                old(self).spec_hasher().leaf_fn(),
                old(self).spec_hasher().nodes_fn(),
                old(self).spec_arity(),
                old(self).spec_num_internal(),
                old(self).spec_first_last_level_leaf(),
                old(self).spec_nodes(),
                new_leaves@,
            ),
            final(self).spec_hasher().computations() == saturating(
                old(self).spec_hasher().computations() + update_cost(
                    Hasher::leaf_cost(),
                    cost_of::<LeafDataType, HashType, Hasher>(old(self).spec_arity() as nat),
                    old(self).spec_hasher().leaf_fn(),
                    old(self).spec_hasher().nodes_fn(),
                    old(self).spec_arity(),
                    old(self).spec_num_internal(),
                    old(self).spec_first_last_level_leaf(),
                    old(self).spec_nodes(),
                    new_leaves@,
                ),
            ),
    {
        let ghost c0 = self.hasher.computations();
        let ghost pre = preprocess_cost(
            Hasher::leaf_cost(),
            cost_of::<LeafDataType, HashType, Hasher>(self.arity as nat),
            self.hasher.leaf_fn(),
            self.arity as int,
            self.num_internal_nodes as int,
            self.first_last_level_leaf@,
            self.nodes@,
            new_leaves@,
        );
        let curr_updates = self.preprocess_leaves(new_leaves);
        let ghost rest = cost_all(
            self.hasher.nodes_fn(),
            cost_of::<LeafDataType, HashType, Hasher>(self.arity as nat),
            self.arity as int,
            self.nodes@,
            curr_updates@,
            self.nodes@.len(),
        );
        self.update_preprocessed_leaves(curr_updates);
        proof {
            lemma_saturating_add(c0 + pre, rest);
        }
    }

    /// Whether `updates` can be applied: positions strictly increasing, each naming a leaf.
    pub fn updates_valid(&self, updates: &Vec<(usize, LeafDataType)>) -> (r: bool)
        ensures
            r == updates_ok(updates@, self.spec_num_leaves()),
    {
        let mut j: usize = 0;
        while j < updates.len()
            invariant
                j <= updates@.len(),
                forall|i: int| 0 <= i < j ==> (#[trigger] updates@[i]).0 < self.num_leaves,
                forall|a: int, b: int|
                    0 <= a < b < j ==> (#[trigger] updates@[a]).0 < (#[trigger] updates@[b]).0,
            decreases updates@.len() - j,
        {
            if updates[j].0 >= self.num_leaves {
                return false;
            }
            if j > 0 && updates[j - 1].0 >= updates[j].0 {
                return false;
            }
            proof {
                assert forall|a: int, b: int| 0 <= a < b < j + 1 implies (#[trigger] updates@[a]).0
                    < (#[trigger] updates@[b]).0 by {
                    if b == j && a < j - 1 {
                        assert(updates@[a].0 < updates@[j - 1].0);
                    }
                }
            }
            j += 1;
        }
        true
    }

    /// Applies the batch `new_leaves` as `update_leaves` does, after checking it: a batch whose
    /// positions do not strictly increase, or name no leaf, is refused and changes nothing.
    pub fn try_update_leaves(&mut self, new_leaves: Vec<(usize, LeafDataType)>) -> (r: Result<
        (),
        InvalidArgument,
    >)
        requires
            old(self).wf(),
        ensures
            final(self).wf(),
            final(self).same_shape(old(self)),
            r is Ok <==> updates_ok(new_leaves@, old(self).spec_num_leaves()),
            r is Ok ==> final(self).spec_nodes() == updated_nodes(
                old(self).spec_hasher().leaf_fn(),
                old(self).spec_hasher().nodes_fn(),
                old(self).spec_arity(),
                old(self).spec_num_internal(),
                old(self).spec_first_last_level_leaf(),
                old(self).spec_nodes(),
                new_leaves@,
            ),
            r is Ok ==> final(self).spec_hasher().computations() == saturating(
                old(self).spec_hasher().computations() + update_cost(
                    Hasher::leaf_cost(),
                    cost_of::<LeafDataType, HashType, Hasher>(old(self).spec_arity() as nat),
                    old(self).spec_hasher().leaf_fn(),
                    old(self).spec_hasher().nodes_fn(),
                    old(self).spec_arity(),
                    old(self).spec_num_internal(),
                    old(self).spec_first_last_level_leaf(),
                    old(self).spec_nodes(),
                    new_leaves@,
                ),
            ),
            r is Err ==> final(self).spec_nodes() == old(self).spec_nodes() && final(self).spec_hasher()
                == old(self).spec_hasher(),
    {
        if !self.updates_valid(&new_leaves) {
            return Err(InvalidArgument::UnsortedOrOutOfRange);
        }
        self.update_leaves(new_leaves);
        Ok(())
    }

    /// Builds a perfect tree of the given arity and height, every node blank.
    pub fn new(arity: usize, height: usize, hasher: Hasher) -> (r: Self)
        requires
            arity >= 2,
            pow(arity as int, height as nat) * arity <= usize::MAX,
            hasher.wf(),
            hasher.arity() == arity,
        ensures
            r.is_new(arity as int, pow(arity as int, height as nat)),
            r.spec_hasher() == hasher,
            r.spec_first_last_level_leaf() == r.spec_num_internal(),
    {
        proof {
            lemma_pow_positive(arity as int, height as nat);
            assert(pow(arity as int, height as nat) <= pow(arity as int, height as nat) * arity) by (nonlinear_arith)
                requires pow(arity as int, height as nat) >= 1, arity >= 2;
            lemma_perfect_height(arity as int, height as nat);
        }
        AbstractMerkle::with_num_leaves(arity, max_leaves(arity, height), hasher)
    }

    /// Builds a tree of the given arity with `num_leaves` leaves, every node blank.
    ///
    /// The height is the largest `h` with `arity^h <= num_leaves`. Leaves that do not fit on
    /// level `h` are split between levels `h` and `h + 1` (see `internal_count` and
    /// `second_to_last_count`).
    pub fn with_num_leaves(arity: usize, num_leaves: usize, hasher: Hasher) -> (r: Self)
        requires
            arity >= 2,
            num_leaves >= 1,
            num_leaves * arity <= usize::MAX,
            hasher.wf(),
            hasher.arity() == arity,
        ensures
            r.is_new(arity as int, num_leaves as int),
            r.spec_hasher() == hasher,
    {
        let ghost k = arity as int;
        let ghost n0 = num_leaves as int;
        let mut height: usize = 0;
        let mut n = num_leaves;

        // compute the tree's height
        while n / arity > 0
            invariant
                arity >= 2,
                k == arity,
                n0 == num_leaves,
                tree_height(k, n0) == height + tree_height(k, n as int),
                height + n <= num_leaves,
                n >= 1,
            decreases n,
        {
            proof {
                lemma_div_decreases(n as int, k);
                assert(n >= arity) by {
                    if n < arity {
                        lemma_fundamental_div_mod_converse(n as int, k, 0, n as int);
                    }
                }
            }
            height += 1;
            n /= arity;
        }
        proof {
            assert(tree_height(k, n as int) == 0) by {
                if n >= arity {
                    lemma_div_is_ordered(k, n as int, k);
                    lemma_div_by_multiple(1, k);
                }
            }
            lemma_height_bounds(k, n0);
            lemma_geometric(k, height as nat);
        }
        // When the leaves do not fill level `height`, they are split between that level and the
        // next one: some parents on level `height` get leaf children, the others are leaves.
        let max_leaves = max_leaves(arity, height);
        let ghost m = max_leaves as int;
        let ghost g = (m - 1) / (k - 1);
        assert(m * k <= n0 * k) by (nonlinear_arith)
            requires
                m <= n0,
                k >= 2,
        ;
        assert(g <= m - 1) by {
            assert(g * (k - 1) == m - 1);
            assert(g * 1 <= g * (k - 1)) by (nonlinear_arith)
                requires
                    g >= 0,
                    k >= 2,
            ;
            lemma_div_pos_is_pos(m - 1, k - 1);
        }
        assert(2 * n0 <= n0 * k) by (nonlinear_arith)
            requires
                k >= 2,
                n0 >= 1,
        ;
        let mut num_internal_nodes = (max_leaves - 1) / (arity - 1);
        let mut total_nodes = num_internal_nodes + num_leaves;
        let mut first_last_level_leaf = NodeIndex(num_internal_nodes);

        if num_leaves > max_leaves {
            let last_level_max_size = max_leaves * arity;
            let num_last: usize;
            let num_second_to_last: usize;
            if last_level_max_size - num_leaves >= arity {
                let ghost r0 = last_level_max_size - num_leaves;
                let r_denom = arity - 1;
                let mut epsilon = arity;
                let mut r_num = last_level_max_size - num_leaves - (arity - epsilon);
                let ghost j = lemma_multiple_within(r0 - k + 1, k - 1);
                let ghost e_star = j + 1;
                while r_num % r_denom != 0
                    invariant
                        k == arity,
                        n0 == num_leaves,
                        r_denom == arity - 1,
                        arity >= 2,
                        r0 >= k,
                        1 <= e_star <= epsilon <= arity,
                        (r0 - (k - e_star)) % (k - 1) == 0,
                        r_num == r0 - (k - epsilon),
                        last_level_max_size - num_leaves == r0,
                        num_leaves <= last_level_max_size,
                        epsilon_from(k, r0, k) == epsilon_from(k, r0, epsilon as int),
                    decreases epsilon,
                {
                    epsilon -= 1;
                    r_num = last_level_max_size - num_leaves - (arity - epsilon);
                }
                num_second_to_last = r_num / r_denom;
                proof {
                    lemma_fundamental_div_mod(r_num as int, k - 1);
                    assert(r_num as int == (k - 1) * num_second_to_last);
                    assert(r_num < m * (k - 1)) by (nonlinear_arith)
                        requires
                            r_num == m * k - n0 - (k - epsilon),
                            n0 > m,
                            epsilon <= k,
                    ;
                    assert(num_second_to_last < m) by (nonlinear_arith)
                        requires
                            r_num as int == (k - 1) * num_second_to_last,
                            r_num < m * (k - 1),
                            k >= 2,
                    ;
                    assert((m - num_second_to_last - 1) * k + epsilon <= n0) by (nonlinear_arith)
                        requires
                            r_num as int == (k - 1) * num_second_to_last,
                            r_num == m * k - n0 - (k - epsilon),
                    ;
                }
                num_last = (max_leaves - num_second_to_last - 1) * arity + epsilon;
                proof {
                    assert(num_last <= m * k) by (nonlinear_arith)
                        requires
                            num_last == (m - num_second_to_last - 1) * k + epsilon,
                            epsilon <= k,
                            num_second_to_last >= 0,
                    ;
                }
                proof {
                    let s = num_second_to_last as int;
                    assert((k - 1) * s == k * s - s) by (nonlinear_arith);
                    assert((m - s - 1) * k == m * k - s * k - k) by (nonlinear_arith);
                    assert(s * k == k * s) by (nonlinear_arith);
                    assert(num_second_to_last + num_last == num_leaves);
                    // every internal node but the last has `arity` children, so there are
                    // no more internal nodes than leaves
                    assert(g + m - s <= n0) by (nonlinear_arith)
                        requires
                            g <= m - 1,
                            n0 == s + (m - s - 1) * k + epsilon,
                            epsilon >= 1,
                            m - s - 1 >= 0,
                            k >= 2,
                    ;
                    assert((g + m - s) * k >= n0 + g + m - s - 1) by (nonlinear_arith)
                        requires
                            g * (k - 1) == m - 1,
                            r_num as int == (k - 1) * s,
                            r_num == m * k - n0 - (k - epsilon),
                            epsilon <= k,
                    ;
                    assert((g + m - s) * k < n0 + g + m - s - 1 + k) by (nonlinear_arith)
                        requires
                            g * (k - 1) == m - 1,
                            r_num as int == (k - 1) * s,
                            r_num == m * k - n0 - (k - epsilon),
                            epsilon >= 1,
                    ;
                }
            } else {
                num_second_to_last = 0;
                num_last = num_leaves;
                assert(g + m <= n0) by (nonlinear_arith)
                    requires
                        g <= m - 1,
                        m * k - n0 < k,
                        k >= 2,
                        m >= 1,
                ;
                assert((g + m) * k >= n0 + g + m - 1) by (nonlinear_arith)
                    requires
                        g * (k - 1) == m - 1,
                        n0 < m * k,
                ;
                assert((g + m) * k < n0 + g + m - 1 + k) by (nonlinear_arith)
                    requires
                        g * (k - 1) == m - 1,
                        m * k - n0 < k,
                ;
            }

            assert(num_second_to_last + num_last == num_leaves);
            num_internal_nodes = (max_leaves - 1) / (arity - 1) + max_leaves - num_second_to_last;
            total_nodes = num_internal_nodes + num_leaves;
            first_last_level_leaf = NodeIndex(num_internal_nodes + num_second_to_last);
        } else {
            assert(g * k >= n0 + g - 1) by (nonlinear_arith)
                requires
                    g * (k - 1) == m - 1,
                    n0 == m,
            ;
            assert(g * k < n0 + g - 1 + k) by (nonlinear_arith)
                requires
                    g * (k - 1) == m - 1,
                    n0 == m,
                    k >= 2,
            ;
        }
        proof {
            let i = num_internal_nodes as int;
            let len = total_nodes as int;
            let h = height as nat;
            lemma_level_start_pow(k, h);
            lemma_level_start_pow(k, h + 1);
            lemma_pow_adds(k, 1, h);
            lemma_pow1(k);
            assert(pow(k, h + 1) == k * m);
            assert(level_start(k, h + 2) == level_start(k, h + 1) + k * m);
            assert(level_start(k, h) == g);
            assert(level_start(k, h + 1) == g + m);
            assert(m * k == k * m) by (nonlinear_arith);
            assert(leaves_on_levels(k, leaf_level(k, n0), i, first_last_level_leaf@, len));
            assert(i * k >= len - 1);
            assert(i * k < len - 1 + k);
            assert(i == 0 || (i - 1) * k + 1 < len) by (nonlinear_arith)
                requires
                    i * k < len - 1 + k,
            ;
            if len > 1 {
                lemma_fundamental_div_mod(len - 2, k);
                lemma_mod_bound(len - 2, k);
                assert((len - 2) / k < i) by (nonlinear_arith)
                    requires
                        len - 2 == k * ((len - 2) / k) + (len - 2) % k,
                        (len - 2) % k >= 0,
                        i * k >= len - 1,
                        k >= 2,
                ;
            }
        }
        let mut nodes: Vec<HashType> = Vec::with_capacity(total_nodes);
        let blank = Hasher::empty_digest();
        while nodes.len() < total_nodes
            invariant
                nodes@.len() <= total_nodes,
                blank == Hasher::blank(),
                forall|i: int| 0 <= i < nodes@.len() ==> #[trigger] nodes@[i] == Hasher::blank(),
            decreases total_nodes - nodes@.len(),
        {
            nodes.push(blank);
        }
        AbstractMerkle {
            arity,
            num_internal_nodes,
            num_leaves,
            nodes,
            hasher,
            phantom: PhantomData,
            first_last_level_leaf,
        }
    }
}

} // verus!
