use vstd::prelude::*;

verus! {

use vstd::arithmetic::div_mod::*;
use crate::layout::{depth, lemma_level_depth, level_start};
use crate::node_index::{NodeIndex, child_of, lemma_parent_child, offset_of, parent_of};

/// The digests of the children of `p` that exist in `nodes`, by offset.
pub open spec fn children_of<H>(nodes: Seq<H>, arity: int, p: int) -> Seq<H> {
    let first = p * arity + 1;
    if first >= nodes.len() {
        Seq::empty()
    } else if first + arity <= nodes.len() {
        nodes.subrange(first, first + arity)
    } else {
        nodes.subrange(first, nodes.len() as int)
    }
}

/// `nodes` with the digest of each `(offset, digest)` of `news` written at that child of `p`.
pub open spec fn write_children<H>(nodes: Seq<H>, arity: int, p: int, news: Seq<(usize, H)>) -> Seq<
    H,
>
    decreases news.len(),
{
    if news.len() == 0 {
        nodes
    } else {
        write_children(nodes, arity, p, news.drop_last()).update(
            child_of(p, arity, news.last().0 as int),
            news.last().1,
        )
    }
}

/// Settles a parent whose changed children are `news`: the children are written, and the
/// parent's new digest, computed from its old digest and its children's old digests, is
/// emitted. Nothing happens when `news` is empty.
pub open spec fn flush<H>(
    f: spec_fn(H, Seq<H>, Seq<(usize, H)>) -> H,
    arity: int,
    nodes: Seq<H>,
    p: int,
    news: Seq<(usize, H)>,
) -> (Seq<H>, Seq<(NodeIndex, H)>) {
    if news.len() == 0 {
        (nodes, Seq::empty())
    } else {
        (
            write_children(nodes, arity, p, news),
            seq![(NodeIndex(p as usize), f(nodes[p], children_of(nodes, arity, p), news))],
        )
    }
}

/// One pass over `queue[i..]`, where `news` holds the changed children of `p` gathered so far:
/// runs of consecutive siblings are settled together, a root entry is written as it is.
/// Returns the nodes afterwards and the parents' new entries, in order.
pub open spec fn propagate<H>(
    f: spec_fn(H, Seq<H>, Seq<(usize, H)>) -> H,
    arity: int,
    nodes: Seq<H>,
    queue: Seq<(NodeIndex, H)>,
    i: int,
    p: int,
    news: Seq<(usize, H)>,
) -> (Seq<H>, Seq<(NodeIndex, H)>)
    decreases queue.len() - i,
{
    if i >= queue.len() {
        flush(f, arity, nodes, p, news)
    } else {
        let idx = queue[i].0@;
        let h = queue[i].1;
        if idx == 0 {
            let (n1, out1) = flush(f, arity, nodes, p, news);
            let (n2, out2) = propagate(f, arity, n1.update(0, h), queue, i + 1, 0, Seq::empty());
            (n2, out1 + out2)
        } else if news.len() > 0 && parent_of(idx, arity) == p {
            propagate(
                f,
                arity,
                nodes,
                queue,
                i + 1,
                p,
                news.push((offset_of(idx, arity) as usize, h)),
            )
        } else {
            let (n1, out1) = flush(f, arity, nodes, p, news);
            let (n2, out2) = propagate(
                f,
                arity,
                n1,
                queue,
                i + 1,
                parent_of(idx, arity),
                seq![(offset_of(idx, arity) as usize, h)],
            );
            (n2, out1 + out2)
        }
    }
}

/// Whether `queue` holds strictly increasing positions.
pub open spec fn ascending<H>(queue: Seq<(NodeIndex, H)>) -> bool {
    forall|a: int, b: int| 0 <= a < b < queue.len() ==> (#[trigger] queue[a]).0@ < (#[trigger] queue[b]).0@
}


/// Repeats `propagate` on the parents' entries until none is left, for at most `bound` passes.
pub open spec fn propagate_all<H>(
    f: spec_fn(H, Seq<H>, Seq<(usize, H)>) -> H,
    arity: int,
    nodes: Seq<H>,
    queue: Seq<(NodeIndex, H)>,
    bound: nat,
) -> Seq<H>
    decreases bound,
{
    if queue.len() == 0 || bound == 0 {
        nodes
    } else {
        let (n1, out) = propagate(f, arity, nodes, queue, 0, 0, Seq::empty());
        propagate_all(f, arity, n1, out, (bound - 1) as nat)
    }
}

/// The entries of the updated leaves: each leaf's position in the array, with its new digest.
pub open spec fn leaf_entries<L, H>(
    leaf_f: spec_fn(usize, L) -> H,
    arity: int,
    num_internal: int,
    upds: Seq<(usize, L)>,
) -> Seq<(NodeIndex, H)> {
    Seq::new(
        upds.len(),
        |j: int|
            {
                let idx = num_internal + upds[j].0;
                (NodeIndex(idx as usize), leaf_f(offset_of(idx, arity) as usize, upds[j].1))
            },
    )
}

/// The index of the first update at or past leaf `bound`, from `j` on; the number of updates
/// when there is none.
pub open spec fn first_at_or_past<L>(upds: Seq<(usize, L)>, bound: int, j: int) -> int
    decreases upds.len() - j,
{
    if j >= upds.len() {
        upds.len() as int
    } else if upds[j].0 >= bound {
        j
    } else {
        first_at_or_past(upds, bound, j + 1)
    }
}

/// Whether the positions of `upds` strictly increase and name leaves of a tree with
/// `num_leaves` leaves.
pub open spec fn updates_ok<L>(upds: Seq<(usize, L)>, num_leaves: int) -> bool {
    &&& forall|j: int| 0 <= j < upds.len() ==> (#[trigger] upds[j]).0 < num_leaves
    &&& forall|a: int, b: int| 0 <= a < b < upds.len() ==> (#[trigger] upds[a]).0 < (#[trigger] upds[b]).0
}

/// The queue that a batch of leaf updates becomes, and the nodes once the leaves of the last
/// level are settled into their parents (when leaves sit on two levels).
pub open spec fn preprocessed<L, H>(
    leaf_f: spec_fn(usize, L) -> H,
    f: spec_fn(H, Seq<H>, Seq<(usize, H)>) -> H,
    arity: int,
    num_internal: int,
    first_last_level_leaf: int,
    nodes: Seq<H>,
    upds: Seq<(usize, L)>,
) -> (Seq<H>, Seq<(NodeIndex, H)>) {
    if first_last_level_leaf > num_internal {
        let s = first_at_or_past(upds, first_last_level_leaf - num_internal, 0);
        let deep = leaf_entries(leaf_f, arity, num_internal, upds.subrange(s, upds.len() as int));
        let upper = leaf_entries(leaf_f, arity, num_internal, upds.subrange(0, s));
        let (n1, out) = propagate(f, arity, nodes, deep, 0, 0, Seq::empty());
        (n1, out + upper)
    } else {
        (nodes, leaf_entries(leaf_f, arity, num_internal, upds))
    }
}

/// The digests of a tree after the batch `upds`: the leaves are digested and queued, and the
/// queue is propagated level by level up to the root.
pub open spec fn updated_nodes<L, H>(
    leaf_f: spec_fn(usize, L) -> H,
    f: spec_fn(H, Seq<H>, Seq<(usize, H)>) -> H,
    arity: int,
    num_internal: int,
    first_last_level_leaf: int,
    nodes: Seq<H>,
    upds: Seq<(usize, L)>,
) -> Seq<H> {
    let (n1, queue) = preprocessed(leaf_f, f, arity, num_internal, first_last_level_leaf, nodes, upds);
    propagate_all(f, arity, n1, queue, nodes.len())
}


/// The number of children of `p` that exist in an array of `len` nodes.
pub open spec fn child_count(len: int, arity: int, p: int) -> nat {
    let first = p * arity + 1;
    if first >= len {
        0
    } else if first + arity <= len {
        arity as nat
    } else {
        (len - first) as nat
    }
}

/// The computations counted during one pass over `queue[i..]` of an array of `len` nodes, where
/// `cnt` changed children of `p` are gathered so far: `cost(children, changed)` for each parent
/// combined, grouped as `propagate` groups them.
pub open spec fn pass_cost<H>(
    cost: spec_fn(nat, nat) -> nat,
    arity: int,
    len: int,
    queue: Seq<(NodeIndex, H)>,
    i: int,
    p: int,
    cnt: nat,
) -> nat
    decreases queue.len() - i,
{
    let settled: nat = if cnt == 0 {
        0
    } else {
        cost(child_count(len, arity, p), cnt)
    };
    if i >= queue.len() {
        settled
    } else {
        let idx = queue[i].0@;
        if idx == 0 {
            settled + pass_cost(cost, arity, len, queue, i + 1, 0, 0)
        } else if cnt > 0 && parent_of(idx, arity) == p {
            pass_cost(cost, arity, len, queue, i + 1, p, cnt + 1)
        } else {
            settled + pass_cost(cost, arity, len, queue, i + 1, parent_of(idx, arity), 1)
        }
    }
}

/// The computations counted by `propagate_all`, pass after pass.
pub open spec fn cost_all<H>(
    f: spec_fn(H, Seq<H>, Seq<(usize, H)>) -> H,
    cost: spec_fn(nat, nat) -> nat,
    arity: int,
    nodes: Seq<H>,
    queue: Seq<(NodeIndex, H)>,
    bound: nat,
) -> nat
    decreases bound,
{
    if queue.len() == 0 || bound == 0 {
        0
    } else {
        let (n1, out) = propagate(f, arity, nodes, queue, 0, 0, Seq::empty());
        pass_cost(cost, arity, nodes.len() as int, queue, 0, 0, 0) + cost_all(
            f,
            cost,
            arity,
            n1,
            out,
            (bound - 1) as nat,
        )
    }
}

/// The computations counted by preprocessing the batch `upds`: one `leaf_cost` per leaf, and the
/// settling of the updated leaves of the last level when leaves sit on two levels.
pub open spec fn preprocess_cost<L, H>(
    leaf_cost: nat,
    cost: spec_fn(nat, nat) -> nat,
    leaf_f: spec_fn(usize, L) -> H,
    arity: int,
    num_internal: int,
    first_last_level_leaf: int,
    nodes: Seq<H>,
    upds: Seq<(usize, L)>,
) -> nat {
    let leaves = upds.len() * leaf_cost;
    if first_last_level_leaf > num_internal {
        let s = first_at_or_past(upds, first_last_level_leaf - num_internal, 0);
        let deep = leaf_entries(leaf_f, arity, num_internal, upds.subrange(s, upds.len() as int));
        leaves + pass_cost(cost, arity, nodes.len() as int, deep, 0, 0, 0)
    } else {
        leaves
    }
}

/// The computations counted by a whole batch update.
pub open spec fn update_cost<L, H>(
    leaf_cost: nat,
    cost: spec_fn(nat, nat) -> nat,
    leaf_f: spec_fn(usize, L) -> H,
    f: spec_fn(H, Seq<H>, Seq<(usize, H)>) -> H,
    arity: int,
    num_internal: int,
    first_last_level_leaf: int,
    nodes: Seq<H>,
    upds: Seq<(usize, L)>,
) -> nat {
    let (n1, queue) = preprocessed(leaf_f, f, arity, num_internal, first_last_level_leaf, nodes, upds);
    preprocess_cost(leaf_cost, cost, leaf_f, arity, num_internal, first_last_level_leaf, nodes, upds)
        + cost_all(f, cost, arity, n1, queue, nodes.len())
}

/// Whether every entry of `queue` sits at depth `d`.
pub open spec fn leveled<H>(queue: Seq<(NodeIndex, H)>, k: int, d: nat) -> bool {
    forall|j: int| 0 <= j < queue.len() ==> depth((#[trigger] queue[j]).0@, k) == d
}

/// The positions of the entries of `queue`.
pub open spec fn positions<H>(queue: Seq<(NodeIndex, H)>) -> Seq<int> {
    queue.map_values(|e: (NodeIndex, H)| e.0@)
}

/// The parents that `propagate_all` combines, pass after pass.
pub open spec fn combined_all<H>(
    f: spec_fn(H, Seq<H>, Seq<(usize, H)>) -> H,
    arity: int,
    nodes: Seq<H>,
    queue: Seq<(NodeIndex, H)>,
    bound: nat,
) -> Seq<int>
    decreases bound,
{
    if queue.len() == 0 || bound == 0 {
        Seq::empty()
    } else {
        let (n1, out) = propagate(f, arity, nodes, queue, 0, 0, Seq::empty());
        positions(out) + combined_all(f, arity, n1, out, (bound - 1) as nat)
    }
}

/// A pass over a queue of nodes at one depth `d >= 1`, in increasing order, emits parents at
/// depth `d - 1`, in increasing order, none below the parent of the group being gathered.
pub proof fn lemma_propagate_leveled<H>(
    f: spec_fn(H, Seq<H>, Seq<(usize, H)>) -> H,
    k: int,
    nodes: Seq<H>,
    q: Seq<(NodeIndex, H)>,
    i: int,
    p: int,
    news: Seq<(usize, H)>,
    d: nat,
    ub: int,
)
    requires
        k >= 2,
        d >= 1,
        ascending(q),
        leveled(q, k, d),
        0 <= i <= q.len(),
        news.len() > 0 ==> depth(p, k) == d - 1 && i > 0 && p == parent_of(q[i - 1].0@, k),
        forall|j: int| 0 <= j < q.len() ==> parent_of((#[trigger] q[j]).0@, k) < ub,
    ensures
        ({
            let out = propagate(f, k, nodes, q, i, p, news).1;
            &&& forall|j: int| 0 <= j < out.len() ==> (#[trigger] out[j]).0@ < ub
            &&& leveled(out, k, (d - 1) as nat)
            &&& ascending(out)
            &&& forall|j: int| 0 <= j < out.len() && news.len() > 0 ==> (#[trigger] out[j]).0@ >= p
            &&& forall|j: int|
                0 <= j < out.len() && news.len() == 0 && i < q.len() ==> (#[trigger] out[j]).0@
                    >= parent_of(q[i].0@, k)
        }),
    decreases q.len() - i,
{
    if i < q.len() {
        let idx = q[i].0@;
        let h = q[i].1;
        assert(depth(idx, k) == d);
        assert(idx != 0);
        assert(idx > 0) by {
            assert(q[i].0@ == q[i].0.0 as int);
        }
        lemma_parent_child(idx, k);
        assert(depth(idx, k) == 1 + depth(parent_of(idx, k), k));
        if news.len() > 0 && parent_of(idx, k) == p {
            lemma_propagate_leveled(f, k, nodes, q, i + 1, p, news.push((offset_of(idx, k) as usize, h)), d, ub);
        } else {
            let (n1, out1) = flush(f, k, nodes, p, news);
            let p2 = parent_of(idx, k);
            let news2 = seq![(offset_of(idx, k) as usize, h)];
            lemma_propagate_leveled(f, k, n1, q, i + 1, p2, news2, d, ub);
            let out2 = propagate(f, k, n1, q, i + 1, p2, news2).1;
            let out = propagate(f, k, nodes, q, i, p, news).1;
            assert(out == out1 + out2);
            if news.len() > 0 {
                assert(q[i - 1].0@ < q[i].0@);
                lemma_div_is_ordered(q[i - 1].0@ - 1, idx - 1, k);
                assert(p < p2);
                assert(out1 == seq![(NodeIndex(p as usize), f(nodes[p], children_of(nodes, k, p), news))]);
                assert(out1[0].0@ == p) by {
                    lemma_parent_child(q[i - 1].0@, k);
                }
                assert forall|j: int| 0 <= j < out.len() implies depth((#[trigger] out[j]).0@, k) == (d - 1) as nat by {
                    if j > 0 {
                        assert(out[j] == out2[j - 1]);
                    }
                }
                assert forall|a: int, b: int| 0 <= a < b < out.len() implies (#[trigger] out[a]).0@
                    < (#[trigger] out[b]).0@ by {
                    if a > 0 {
                        assert(out[a] == out2[a - 1]);
                    }
                    assert(out[b] == out2[b - 1]);
                }
                assert forall|j: int| 0 <= j < out.len() implies (#[trigger] out[j]).0@ >= p by {
                    if j > 0 {
                        assert(out[j] == out2[j - 1]);
                    }
                }
                assert forall|j: int| 0 <= j < out.len() implies (#[trigger] out[j]).0@ < ub by {
                    if j > 0 {
                        assert(out[j] == out2[j - 1]);
                    }
                }
            } else {
                assert(out1.len() == 0);
                assert(out =~= out2);
            }
        }
    }
}

/// No parent is combined twice in the passes from a queue of nodes at one depth, in increasing
/// order; all of them sit above that depth.
pub proof fn lemma_combined_all<H>(
    f: spec_fn(H, Seq<H>, Seq<(usize, H)>) -> H,
    k: int,
    nodes: Seq<H>,
    q: Seq<(NodeIndex, H)>,
    bound: nat,
    d: nat,
)
    requires
        k >= 2,
        ascending(q),
        leveled(q, k, d),
    ensures
        combined_all(f, k, nodes, q, bound).no_duplicates(),
        forall|j: int|
            0 <= j < combined_all(f, k, nodes, q, bound).len() ==> depth(
                #[trigger] combined_all(f, k, nodes, q, bound)[j],
                k,
            ) < d,
    decreases bound,
{
    if q.len() > 0 && bound > 0 {
        let (n1, out) = propagate(f, k, nodes, q, 0, 0, Seq::empty());
        let rest = combined_all(f, k, n1, out, (bound - 1) as nat);
        let all = combined_all(f, k, nodes, q, bound);
        assert(all == positions(out) + rest);
        if d == 0 {
            // only the root sits at depth 0, and it is written, not combined
            assert(q.len() == 1) by {
                if q.len() > 1 {
                    assert(depth(q[1].0@, k) == 0);
                    assert(q[0].0@ < q[1].0@);
                    assert(q[1].0@ > 0);
                    lemma_parent_child(q[1].0@, k);
                }
            }
            assert(q[0].0@ == 0) by {
                if q[0].0@ > 0 {
                    lemma_parent_child(q[0].0@, k);
                }
            }
            let (n0, o0) = flush(f, k, nodes, 0, Seq::empty());
            assert(out == o0 + propagate(f, k, n0.update(0, q[0].1), q, 1, 0, Seq::empty()).1);
            assert(out.len() == 0);
            assert(rest.len() == 0);
            assert(all =~= Seq::<int>::empty());
        } else {
            assert forall|j: int| 0 <= j < q.len() implies parent_of((#[trigger] q[j]).0@, k) < parent_of(q.last().0@, k) + 1 by {
                if j < q.len() - 1 {
                    assert(q[j].0@ < q[q.len() - 1].0@);
                }
                lemma_div_is_ordered(q[j].0@ - 1, q.last().0@ - 1, k);
            }
            lemma_propagate_leveled(f, k, nodes, q, 0, 0, Seq::empty(), d, parent_of(q.last().0@, k) + 1);
            lemma_combined_all(f, k, n1, out, (bound - 1) as nat, (d - 1) as nat);
            let po = positions(out);
            assert forall|a: int, b: int| 0 <= a < all.len() && 0 <= b < all.len() && a != b implies all[a]
                != all[b] by {
                if a < po.len() && b < po.len() {
                    assert(po[a] == out[a].0@);
                    assert(po[b] == out[b].0@);
                    if a < b {
                        assert(out[a].0@ < out[b].0@);
                    } else {
                        assert(out[b].0@ < out[a].0@);
                    }
                } else if a < po.len() {
                    assert(po[a] == out[a].0@);
                    assert(depth(out[a].0@, k) == d - 1);
                    assert(all[b] == rest[b - po.len()]);
                } else if b < po.len() {
                    assert(po[b] == out[b].0@);
                    assert(depth(out[b].0@, k) == d - 1);
                    assert(all[a] == rest[a - po.len()]);
                } else {
                    assert(all[a] == rest[a - po.len()]);
                    assert(all[b] == rest[b - po.len()]);
                }
            }
            assert forall|j: int| 0 <= j < all.len() implies depth(#[trigger] all[j], k) < d by {
                if j < po.len() {
                    assert(po[j] == out[j].0@);
                } else {
                    assert(all[j] == rest[j - po.len()]);
                }
            }
        }
    }
}

/// The parents that `update_leaves` combines: with leaves on two levels, first those of the
/// updated leaves of the last level, then those of every pass up to the root.
pub open spec fn combined_in_update<L, H>(
    leaf_f: spec_fn(usize, L) -> H,
    f: spec_fn(H, Seq<H>, Seq<(usize, H)>) -> H,
    arity: int,
    num_internal: int,
    first_last_level_leaf: int,
    nodes: Seq<H>,
    upds: Seq<(usize, L)>,
) -> Seq<int> {
    if first_last_level_leaf > num_internal {
        let s = first_at_or_past(upds, first_last_level_leaf - num_internal, 0);
        let deep = leaf_entries(leaf_f, arity, num_internal, upds.subrange(s, upds.len() as int));
        let upper = leaf_entries(leaf_f, arity, num_internal, upds.subrange(0, s));
        let (n1, out) = propagate(f, arity, nodes, deep, 0, 0, Seq::empty());
        positions(out) + combined_all(f, arity, n1, out + upper, nodes.len())
    } else {
        combined_all(f, arity, nodes, leaf_entries(leaf_f, arity, num_internal, upds), nodes.len())
    }
}

pub proof fn lemma_first_at_or_past<L>(upds: Seq<(usize, L)>, bound: int, j: int)
    requires
        0 <= j <= upds.len(),
        forall|a: int, b: int| 0 <= a < b < upds.len() ==> (#[trigger] upds[a]).0 < (#[trigger] upds[b]).0,
        forall|i: int| 0 <= i < j ==> (#[trigger] upds[i]).0 < bound,
    ensures
        ({
            let s = first_at_or_past(upds, bound, j);
            ||| (s == upds.len() && forall|i: int| 0 <= i < upds.len() ==> (#[trigger] upds[i]).0 < bound)
            ||| (0 <= s < upds.len() && upds[s].0 >= bound && forall|i: int|
                0 <= i < s ==> (#[trigger] upds[i]).0 < bound)
        }),
    decreases upds.len() - j,
{
    if j < upds.len() && upds[j].0 < bound {
        lemma_first_at_or_past(upds, bound, j + 1);
    }
}

/// The entries of updated leaves that all sit on level `d` are in increasing order at depth
/// `d`, each with a parent below `ub`.
pub proof fn lemma_leaf_entries_leveled<L, H>(
    leaf_f: spec_fn(usize, L) -> H,
    k: int,
    num_internal: int,
    upds: Seq<(usize, L)>,
    d: nat,
    ub: int,
)
    requires
        k >= 2,
        num_internal >= 0,
        forall|a: int, b: int| 0 <= a < b < upds.len() ==> (#[trigger] upds[a]).0 < (#[trigger] upds[b]).0,
        forall|j: int|
            0 <= j < upds.len() ==> level_start(k, d) <= num_internal + (#[trigger] upds[j]).0 < level_start(k, d + 1),
        forall|j: int|
            0 <= j < upds.len() ==> num_internal + (#[trigger] upds[j]).0 <= usize::MAX,
        forall|j: int|
            0 <= j < upds.len() ==> parent_of(num_internal + (#[trigger] upds[j]).0, k) < ub,
    ensures
        ({
            let q = leaf_entries(leaf_f, k, num_internal, upds);
            &&& ascending(q)
            &&& leveled(q, k, d)
            &&& forall|j: int| 0 <= j < q.len() ==> parent_of((#[trigger] q[j]).0@, k) < ub
            &&& forall|j: int| 0 <= j < q.len() ==> (#[trigger] q[j]).0@ >= num_internal
        }),
{
    let q = leaf_entries(leaf_f, k, num_internal, upds);
    assert forall|j: int| 0 <= j < q.len() implies depth((#[trigger] q[j]).0@, k) == d by {
        lemma_level_depth(k, d, num_internal + upds[j].0);
    }
    assert forall|a: int, b: int| 0 <= a < b < q.len() implies (#[trigger] q[a]).0@ < (#[trigger] q[b]).0@ by {
        assert(upds[a].0 < upds[b].0);
    }
}

/// With a cost of one per parent, a pass counts exactly the parents it combines.
pub proof fn lemma_pass_cost_unit<H>(
    f: spec_fn(H, Seq<H>, Seq<(usize, H)>) -> H,
    cost: spec_fn(nat, nat) -> nat,
    arity: int,
    nodes: Seq<H>,
    queue: Seq<(NodeIndex, H)>,
    i: int,
    p: int,
    news: Seq<(usize, H)>,
    len: int,
)
    requires
        forall|m: nat, c: nat| #[trigger] cost(m, c) == 1,
    ensures
        pass_cost(cost, arity, len, queue, i, p, news.len()) == propagate(f, arity, nodes, queue, i, p, news).1.len(),
    decreases queue.len() - i,
{
    let (n1, out1) = flush(f, arity, nodes, p, news);
    let settled: nat = if news.len() == 0 {
        0
    } else {
        cost(child_count(len, arity, p), news.len())
    };
    assert(settled == out1.len());
    if i < queue.len() {
        let idx = queue[i].0@;
        let h = queue[i].1;
        if idx == 0 {
            lemma_pass_cost_unit(f, cost, arity, n1.update(0, h), queue, i + 1, 0, Seq::empty(), len);
        } else if news.len() > 0 && parent_of(idx, arity) == p {
            let news2 = news.push((offset_of(idx, arity) as usize, h));
            assert(news2.len() == news.len() + 1);
            lemma_pass_cost_unit(f, cost, arity, nodes, queue, i + 1, p, news2, len);
        } else {
            let news2 = seq![(offset_of(idx, arity) as usize, h)];
            assert(news2.len() == 1);
            lemma_pass_cost_unit(f, cost, arity, n1, queue, i + 1, parent_of(idx, arity), news2, len);
        }
    }
}

/// With a cost of one per parent, the passes count exactly the parents they combine.
pub proof fn lemma_cost_all_unit<H>(
    f: spec_fn(H, Seq<H>, Seq<(usize, H)>) -> H,
    cost: spec_fn(nat, nat) -> nat,
    arity: int,
    nodes: Seq<H>,
    queue: Seq<(NodeIndex, H)>,
    bound: nat,
)
    requires
        forall|m: nat, c: nat| #[trigger] cost(m, c) == 1,
    ensures
        cost_all(f, cost, arity, nodes, queue, bound) == combined_all(f, arity, nodes, queue, bound).len(),
    decreases bound,
{
    if queue.len() > 0 && bound > 0 {
        let (n1, out) = propagate(f, arity, nodes, queue, 0, 0, Seq::empty());
        lemma_pass_cost_unit(f, cost, arity, nodes, queue, 0, 0, Seq::empty(), nodes.len() as int);
        lemma_cost_all_unit(f, cost, arity, n1, out, (bound - 1) as nat);
    }
}

/// With one unit per leaf and per parent, a batch update counts its leaves plus the parents it
/// combines.
pub proof fn lemma_update_cost_unit<L, H>(
    cost: spec_fn(nat, nat) -> nat,
    leaf_f: spec_fn(usize, L) -> H,
    f: spec_fn(H, Seq<H>, Seq<(usize, H)>) -> H,
    arity: int,
    num_internal: int,
    first_last_level_leaf: int,
    nodes: Seq<H>,
    upds: Seq<(usize, L)>,
)
    requires
        forall|m: nat, c: nat| #[trigger] cost(m, c) == 1,
    ensures
        update_cost(1, cost, leaf_f, f, arity, num_internal, first_last_level_leaf, nodes, upds) == upds.len()
            + combined_in_update(leaf_f, f, arity, num_internal, first_last_level_leaf, nodes, upds).len(),
{
    if first_last_level_leaf > num_internal {
        let s = first_at_or_past(upds, first_last_level_leaf - num_internal, 0);
        let deep = leaf_entries(leaf_f, arity, num_internal, upds.subrange(s, upds.len() as int));
        let upper = leaf_entries(leaf_f, arity, num_internal, upds.subrange(0, s));
        let (n1, out) = propagate(f, arity, nodes, deep, 0, 0, Seq::empty());
        lemma_pass_cost_unit(f, cost, arity, nodes, deep, 0, 0, Seq::empty(), nodes.len() as int);
        lemma_cost_all_unit(f, cost, arity, n1, out + upper, nodes.len());
    } else {
        lemma_cost_all_unit(f, cost, arity, nodes, leaf_entries(leaf_f, arity, num_internal, upds), nodes.len());
    }
}

/// Whether `a` is a proper ancestor of position `x`.
pub open spec fn is_ancestor(a: int, x: int, k: int) -> bool
    decreases x,
    via is_ancestor_decreases
{
    if x > 0 && k >= 1 {
        parent_of(x, k) == a || is_ancestor(a, parent_of(x, k), k)
    } else {
        false
    }
}

#[via_fn]
proof fn is_ancestor_decreases(a: int, x: int, k: int) {
    if x > 0 && k >= 1 {
        lemma_parent_child(x, k);
    }
}

/// Whether some non-root entry of `queue` has `x` as parent.
pub open spec fn parent_of_entry<H>(queue: Seq<(NodeIndex, H)>, x: int, k: int) -> bool {
    exists|j: int| 0 <= j < queue.len() && queue[j].0@ > 0 && parent_of(queue[j].0@, k) == x
}

/// Whether `x` is a proper ancestor of the position of some entry of `queue`.
pub open spec fn ancestor_of_entry<H>(queue: Seq<(NodeIndex, H)>, x: int, k: int) -> bool {
    exists|j: int| 0 <= j < queue.len() && is_ancestor(x, queue[j].0@, k)
}

/// Whether `c` is a proper ancestor of some leaf that `upds` updates.
pub open spec fn ancestor_of_update<L>(upds: Seq<(usize, L)>, num_internal: int, c: int, k: int) -> bool {
    exists|j: int| 0 <= j < upds.len() && is_ancestor(c, num_internal + upds[j].0, k)
}

/// Whether `x` is the position of some entry of `queue`.
pub open spec fn entry_at<H>(queue: Seq<(NodeIndex, H)>, x: int) -> bool {
    exists|j: int| 0 <= j < queue.len() && queue[j].0@ == x
}

/// Writing children inside the array keeps its length and every other node.
pub proof fn lemma_write_children_frame<H>(nodes: Seq<H>, k: int, p: int, news: Seq<(usize, H)>, x: int)
    requires
        0 <= x < nodes.len(),
        forall|t: int| 0 <= t < news.len() ==> 0 <= #[trigger] child_of(p, k, news[t].0 as int) < nodes.len(),
    ensures
        write_children(nodes, k, p, news).len() == nodes.len(),
        (forall|t: int| 0 <= t < news.len() ==> #[trigger] child_of(p, k, news[t].0 as int) != x)
            ==> write_children(nodes, k, p, news)[x] == nodes[x],
    decreases news.len(),
{
    if news.len() > 0 {
        let front = news.drop_last();
        assert forall|t: int| 0 <= t < front.len() implies 0 <= #[trigger] child_of(p, k, front[t].0 as int)
            < nodes.len() by {
            assert(front[t] == news[t]);
        }
        lemma_write_children_frame(nodes, k, p, front, x);
        if forall|t: int| 0 <= t < news.len() ==> #[trigger] child_of(p, k, news[t].0 as int) != x {
            assert forall|t: int| 0 <= t < front.len() implies #[trigger] child_of(p, k, front[t].0 as int) != x by {
                assert(front[t] == news[t]);
            }
            assert(child_of(p, k, news[news.len() - 1].0 as int) != x);
        }
        assert(child_of(p, k, news[news.len() - 1].0 as int) < nodes.len());
    }
}

/// A pass keeps the length of the array, and every node that is not the position of an entry
/// still to come nor a child being gathered. Each parent it emits is the parent of an entry.
pub proof fn lemma_propagate_frame<H>(
    f: spec_fn(H, Seq<H>, Seq<(usize, H)>) -> H,
    k: int,
    nodes: Seq<H>,
    q: Seq<(NodeIndex, H)>,
    i: int,
    p: int,
    news: Seq<(usize, H)>,
    x: int,
)
    requires
        2 <= k <= usize::MAX,
        0 <= i,
        0 <= x < nodes.len(),
        forall|j: int| 0 <= j < q.len() ==> 0 <= (#[trigger] q[j]).0@ < nodes.len(),
        forall|t: int| 0 <= t < news.len() ==> 0 <= #[trigger] child_of(p, k, news[t].0 as int) < nodes.len(),
        news.len() > 0 ==> parent_of_entry(q, p, k),
    ensures
        propagate(f, k, nodes, q, i, p, news).0.len() == nodes.len(),
        (forall|t: int| 0 <= t < news.len() ==> #[trigger] child_of(p, k, news[t].0 as int) != x) && (forall|j: int|
            i <= j < q.len() ==> (#[trigger] q[j]).0@ != x) ==> propagate(f, k, nodes, q, i, p, news).0[x] == nodes[x],
        forall|o: int|
            0 <= o < propagate(f, k, nodes, q, i, p, news).1.len() ==> parent_of_entry(
                q,
                (#[trigger] propagate(f, k, nodes, q, i, p, news).1[o]).0@,
                k,
            ),
    decreases q.len() - i,
{
    let (n1, out1) = flush(f, k, nodes, p, news);
    lemma_write_children_frame(nodes, k, p, news, x);
    let out = propagate(f, k, nodes, q, i, p, news).1;
    if news.len() > 0 {
        let j = choose|j: int| 0 <= j < q.len() && q[j].0@ > 0 && parent_of(q[j].0@, k) == p;
        lemma_parent_child(q[j].0@, k);
        assert(0 <= p < nodes.len());
        assert(out1[0].0@ == p);
    }
    if i < q.len() {
        let idx = q[i].0@;
        let h = q[i].1;
        if idx == 0 {
            lemma_propagate_frame(f, k, n1.update(0, h), q, i + 1, 0, Seq::empty(), x);
            let out2 = propagate(f, k, n1.update(0, h), q, i + 1, 0, Seq::empty()).1;
            assert(out == out1 + out2);
            assert forall|o: int| 0 <= o < out.len() implies parent_of_entry(q, (#[trigger] out[o]).0@, k) by {
                if o >= out1.len() {
                    assert(out[o] == out2[o - out1.len()]);
                }
            }
        } else {
            lemma_parent_child(idx, k);
            let c = offset_of(idx, k) as usize;
            assert(c as int == offset_of(idx, k));
            assert(child_of(parent_of(idx, k), k, c as int) == idx);
            if news.len() > 0 && parent_of(idx, k) == p {
                let news2 = news.push((c, h));
                assert forall|t: int| 0 <= t < news2.len() implies 0 <= #[trigger] child_of(p, k, news2[t].0 as int)
                    < nodes.len() by {
                    if t < news.len() {
                        assert(news2[t] == news[t]);
                    }
                }
                lemma_propagate_frame(f, k, nodes, q, i + 1, p, news2, x);
                if (forall|t: int| 0 <= t < news.len() ==> #[trigger] child_of(p, k, news[t].0 as int) != x) && (forall|j: int|
                    i <= j < q.len() ==> (#[trigger] q[j]).0@ != x) {
                    assert forall|t: int| 0 <= t < news2.len() implies #[trigger] child_of(p, k, news2[t].0 as int) != x by {
                        if t < news.len() {
                            assert(news2[t] == news[t]);
                        }
                    }
                }
            } else {
                let p2 = parent_of(idx, k);
                let news2 = seq![(c, h)];
                assert(child_of(p2, k, news2[0].0 as int) == idx);
                assert(parent_of_entry(q, p2, k));
                lemma_propagate_frame(f, k, n1, q, i + 1, p2, news2, x);
                let out2 = propagate(f, k, n1, q, i + 1, p2, news2).1;
                assert(out == out1 + out2);
                assert forall|o: int| 0 <= o < out.len() implies parent_of_entry(q, (#[trigger] out[o]).0@, k) by {
                    if o >= out1.len() {
                        assert(out[o] == out2[o - out1.len()]);
                    }
                }
            }
        }
    }
}

/// The passes keep the length of the array, and every node that is neither the position of an
/// entry of `q` nor a proper ancestor of one; every parent they combine is a proper ancestor of
/// an entry.
pub proof fn lemma_propagate_all_frame<H>(
    f: spec_fn(H, Seq<H>, Seq<(usize, H)>) -> H,
    k: int,
    nodes: Seq<H>,
    q: Seq<(NodeIndex, H)>,
    bound: nat,
    x: int,
)
    requires
        2 <= k <= usize::MAX,
        0 <= x < nodes.len(),
        forall|j: int| 0 <= j < q.len() ==> 0 <= (#[trigger] q[j]).0@ < nodes.len(),
    ensures
        propagate_all(f, k, nodes, q, bound).len() == nodes.len(),
        forall|c: int|
            0 <= c < combined_all(f, k, nodes, q, bound).len() ==> ancestor_of_entry(
                q,
                #[trigger] combined_all(f, k, nodes, q, bound)[c],
                k,
            ),
        !entry_at(q, x) && !ancestor_of_entry(q, x, k) ==> propagate_all(f, k, nodes, q, bound)[x] == nodes[x],
    decreases bound,
{
    if q.len() > 0 && bound > 0 {
        let (n1, out) = propagate(f, k, nodes, q, 0, 0, Seq::empty());
        lemma_propagate_frame(f, k, nodes, q, 0, 0, Seq::empty(), x);
        assert forall|o: int| 0 <= o < out.len() implies 0 <= (#[trigger] out[o]).0@ < n1.len() by {
            let j = choose|j: int| 0 <= j < q.len() && q[j].0@ > 0 && parent_of(q[j].0@, k) == out[o].0@;
            lemma_parent_child(q[j].0@, k);
        }
        lemma_propagate_all_frame(f, k, n1, out, (bound - 1) as nat, x);
        let rest = combined_all(f, k, n1, out, (bound - 1) as nat);
        let all = combined_all(f, k, nodes, q, bound);
        let po = positions(out);
        assert(all == po + rest);
        assert forall|c: int| 0 <= c < all.len() implies ancestor_of_entry(q, #[trigger] all[c], k) by {
            if c < po.len() {
                assert(po[c] == out[c].0@);
                let j = choose|j: int| 0 <= j < q.len() && q[j].0@ > 0 && parent_of(q[j].0@, k) == out[c].0@;
                assert(is_ancestor(all[c], q[j].0@, k));
            } else {
                assert(all[c] == rest[c - po.len()]);
                let o = choose|o: int| 0 <= o < out.len() && is_ancestor(all[c], out[o].0@, k);
                let j = choose|j: int| 0 <= j < q.len() && q[j].0@ > 0 && parent_of(q[j].0@, k) == out[o].0@;
                assert(is_ancestor(all[c], q[j].0@, k));
            }
        }
        if !entry_at(q, x) && !ancestor_of_entry(q, x, k) {
            assert forall|j: int| 0 <= j < q.len() implies (#[trigger] q[j]).0@ != x by {
                if q[j].0@ == x {
                    assert(entry_at(q, x));
                }
            }
            assert(!entry_at(out, x)) by {
                if entry_at(out, x) {
                    let o = choose|o: int| 0 <= o < out.len() && out[o].0@ == x;
                    let j = choose|j: int| 0 <= j < q.len() && q[j].0@ > 0 && parent_of(q[j].0@, k) == out[o].0@;
                    assert(is_ancestor(x, q[j].0@, k));
                }
            }
            assert(!ancestor_of_entry(out, x, k)) by {
                if ancestor_of_entry(out, x, k) {
                    let o = choose|o: int| 0 <= o < out.len() && is_ancestor(x, out[o].0@, k);
                    let j = choose|j: int| 0 <= j < q.len() && q[j].0@ > 0 && parent_of(q[j].0@, k) == out[o].0@;
                    assert(is_ancestor(x, q[j].0@, k));
                }
            }
        }
    }
}

/// Writing children leaves a child with its new digest when no other write goes to it.
pub proof fn lemma_write_children_value<H>(nodes: Seq<H>, k: int, p: int, news: Seq<(usize, H)>, t: int)
    requires
        0 <= t < news.len(),
        forall|a: int| 0 <= a < news.len() ==> 0 <= #[trigger] child_of(p, k, news[a].0 as int) < nodes.len(),
        forall|a: int|
            0 <= a < news.len() && a != t ==> #[trigger] child_of(p, k, news[a].0 as int) != child_of(
                p,
                k,
                news[t].0 as int,
            ),
    ensures
        write_children(nodes, k, p, news)[child_of(p, k, news[t].0 as int)] == news[t].1,
    decreases news.len(),
{
    let last = news.len() - 1;
    let front = news.drop_last();
    assert forall|a: int| 0 <= a < front.len() implies 0 <= #[trigger] child_of(p, k, front[a].0 as int)
        < nodes.len() by {
        assert(front[a] == news[a]);
    }
    lemma_write_children_frame(nodes, k, p, front, child_of(p, k, news[t].0 as int));
    if t < last {
        assert forall|a: int| 0 <= a < front.len() && a != t implies #[trigger] child_of(p, k, front[a].0 as int)
            != child_of(p, k, front[t].0 as int) by {
            assert(front[a] == news[a]);
            assert(front[t] == news[t]);
        }
        lemma_write_children_value(nodes, k, p, front, t);
        assert(front[t] == news[t]);
        assert(child_of(p, k, news[last].0 as int) != child_of(p, k, news[t].0 as int));
    }
}

/// In a pass over entries at distinct positions, each entry still to come, and each child being
/// gathered (the entries just before `i`), ends up written with its digest.
pub proof fn lemma_propagate_writes<H>(
    f: spec_fn(H, Seq<H>, Seq<(usize, H)>) -> H,
    k: int,
    nodes: Seq<H>,
    q: Seq<(NodeIndex, H)>,
    i: int,
    p: int,
    news: Seq<(usize, H)>,
    j: int,
)
    requires
        2 <= k <= usize::MAX,
        forall|a: int| 0 <= a < q.len() && a != j ==> (#[trigger] q[a]).0@ != q[j].0@,
        forall|a: int| 0 <= a < q.len() ==> 0 <= (#[trigger] q[a]).0@ < nodes.len(),
        news.len() <= i <= q.len(),
        forall|t: int|
            0 <= t < news.len() ==> #[trigger] child_of(p, k, news[t].0 as int) == q[i - news.len() + t].0@
                && news[t].1 == q[i - news.len() + t].1,
        news.len() > 0 ==> parent_of_entry(q, p, k),
        i - news.len() <= j < q.len(),
    ensures
        propagate(f, k, nodes, q, i, p, news).0[q[j].0@] == q[j].1,
    decreases q.len() - i,
{
    let (n1, out1) = flush(f, k, nodes, p, news);
    let x = q[j].0@;
    let base = i - news.len();
    assert forall|a: int| 0 <= a < news.len() implies 0 <= #[trigger] child_of(p, k, news[a].0 as int) < nodes.len() by {
        assert(child_of(p, k, news[a].0 as int) == q[base + a].0@);
    }
    lemma_write_children_frame(nodes, k, p, news, x);
    if j < i {
        assert forall|a: int| 0 <= a < news.len() && a != j - base implies #[trigger] child_of(p, k, news[a].0 as int)
            != child_of(p, k, news[j - base].0 as int) by {
            assert(child_of(p, k, news[a].0 as int) == q[base + a].0@);
            assert(child_of(p, k, news[j - base].0 as int) == q[j].0@);
        }
        lemma_write_children_value(nodes, k, p, news, j - base);
        assert(child_of(p, k, news[j - base].0 as int) == x);
    }
    // after the flush, the gathered children hold their digests
    assert(j < i ==> n1[x] == q[j].1);
    if i < q.len() {
        let idx = q[i].0@;
        let h = q[i].1;
        if idx == 0 {
            let n2 = n1.update(0, h);
            if j == i {
                lemma_propagate_frame(f, k, n2, q, i + 1, 0, Seq::empty(), x);
                assert forall|a: int| i + 1 <= a < q.len() implies (#[trigger] q[a]).0@ != x by {}
            } else if j < i {
                lemma_propagate_frame(f, k, n2, q, i + 1, 0, Seq::empty(), x);
                assert forall|a: int| i + 1 <= a < q.len() implies (#[trigger] q[a]).0@ != x by {}
                assert(idx != x);
            } else {
                lemma_propagate_writes(f, k, n2, q, i + 1, 0, Seq::empty(), j);
            }
        } else {
            lemma_parent_child(idx, k);
            let c = offset_of(idx, k) as usize;
            assert(c as int == offset_of(idx, k));
            if news.len() > 0 && parent_of(idx, k) == p {
                let news2 = news.push((c, h));
                assert forall|t: int| 0 <= t < news2.len() implies #[trigger] child_of(p, k, news2[t].0 as int)
                    == q[i + 1 - news2.len() + t].0@ && news2[t].1 == q[i + 1 - news2.len() + t].1 by {
                    if t < news.len() {
                        assert(news2[t] == news[t]);
                        assert(child_of(p, k, news[t].0 as int) == q[i - news.len() + t].0@);
                        assert(i + 1 - news2.len() + t == i - news.len() + t);
                    } else {
                        assert(news2[t] == (c, h));
                        assert(i + 1 - news2.len() + t == i);
                        assert(child_of(p, k, c as int) == idx);
                    }
                }
                let i2 = i + 1;
                assert(forall|t: int|
                    0 <= t < news2.len() ==> #[trigger] child_of(p, k, news2[t].0 as int) == q[i2 - news2.len() + t].0@
                        && news2[t].1 == q[i2 - news2.len() + t].1);
                assert(news2.len() <= i2 <= q.len());
                assert(i2 - news2.len() <= j < q.len());
                lemma_propagate_writes(f, k, nodes, q, i2, p, news2, j);
            } else {
                let p2 = parent_of(idx, k);
                let news2 = seq![(c, h)];
                assert(child_of(p2, k, news2[0].0 as int) == idx);
                assert(parent_of_entry(q, p2, k));
                if j >= i {
                    lemma_propagate_writes(f, k, n1, q, i + 1, p2, news2, j);
                } else {
                    lemma_write_children_frame(nodes, k, p, news, 0);
                    lemma_propagate_frame(f, k, n1, q, i + 1, p2, news2, x);
                    assert forall|a: int| i + 1 <= a < q.len() implies (#[trigger] q[a]).0@ != x by {}
                    assert(idx != x);
                }
            }
        }
    }
}

/// A proper ancestor of a node sits among the first `ni` positions, when every node's parent
/// does.
pub proof fn lemma_ancestor_below(a: int, y: int, k: int, len: int, ni: int)
    requires
        k >= 2,
        0 <= y < len,
        forall|z: int| 0 < z < len ==> #[trigger] parent_of(z, k) < ni,
        is_ancestor(a, y, k),
    ensures
        a < ni,
    decreases y,
{
    lemma_parent_child(y, k);
    if parent_of(y, k) != a {
        lemma_ancestor_below(a, parent_of(y, k), k, len, ni);
    }
}

/// In the passes from `q`, an entry at a position of its own, which is no parent of any node,
/// ends up with its digest.
pub proof fn lemma_propagate_all_writes<H>(
    f: spec_fn(H, Seq<H>, Seq<(usize, H)>) -> H,
    k: int,
    nodes: Seq<H>,
    q: Seq<(NodeIndex, H)>,
    bound: nat,
    j: int,
    ni: int,
)
    requires
        2 <= k <= usize::MAX,
        bound >= 1,
        0 <= j < q.len(),
        forall|a: int| 0 <= a < q.len() && a != j ==> (#[trigger] q[a]).0@ != q[j].0@,
        forall|a: int| 0 <= a < q.len() ==> 0 <= (#[trigger] q[a]).0@ < nodes.len(),
        q[j].0@ >= ni,
        forall|z: int| 0 < z < nodes.len() ==> #[trigger] parent_of(z, k) < ni,
    ensures
        propagate_all(f, k, nodes, q, bound)[q[j].0@] == q[j].1,
{
    let x = q[j].0@;
    let (n1, out) = propagate(f, k, nodes, q, 0, 0, Seq::empty());
    lemma_propagate_writes(f, k, nodes, q, 0, 0, Seq::empty(), j);
    lemma_propagate_frame(f, k, nodes, q, 0, 0, Seq::empty(), x);
    assert forall|o: int| 0 <= o < out.len() implies 0 <= (#[trigger] out[o]).0@ < n1.len() && out[o].0@ < ni by {
        let a = choose|a: int| 0 <= a < q.len() && q[a].0@ > 0 && parent_of(q[a].0@, k) == out[o].0@;
        lemma_parent_child(q[a].0@, k);
    }
    lemma_propagate_all_frame(f, k, n1, out, (bound - 1) as nat, x);
    assert(!entry_at(out, x));
    assert(!ancestor_of_entry(out, x, k)) by {
        if ancestor_of_entry(out, x, k) {
            let o = choose|o: int| 0 <= o < out.len() && is_ancestor(x, out[o].0@, k);
            lemma_ancestor_below(x, out[o].0@, k, nodes.len() as int, ni);
        }
    }
}

} // verus!
