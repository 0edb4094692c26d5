use vstd::prelude::*;

verus! {

use vstd::arithmetic::power::*;
use vstd::arithmetic::div_mod::*;
use crate::node_index::{parent_of, lemma_parent_child};

/// The height of the tallest perfect `k`-ary tree with at most `n` leaves: how many times `n`
/// can be divided by `k` before it drops below `k`.
pub open spec fn tree_height(k: int, n: int) -> nat
    decreases n,
    via tree_height_decreases
{
    if k >= 2 && n >= k {
        1 + tree_height(k, n / k)
    } else {
        0
    }
}

#[via_fn]
proof fn tree_height_decreases(k: int, n: int) {
    if k >= 2 && n >= k {
        lemma_div_decreases(n, k);
    }
}

/// The number of leaves of a perfect tree of height `tree_height(k, n)`.
pub open spec fn perfect_leaves(k: int, n: int) -> int {
    pow(k, tree_height(k, n))
}

/// The largest `e <= from` (and at least 1) with `(r0 - (k - e))` divisible by `k - 1`.
pub open spec fn epsilon_from(k: int, r0: int, from: int) -> int
    decreases from,
{
    if from <= 1 || (r0 - (k - from)) % (k - 1) == 0 {
        from
    } else {
        epsilon_from(k, r0, from - 1)
    }
}

/// How many leaves sit on the second-to-last level when `n` leaves do not fill a perfect tree.
pub open spec fn second_to_last_count(k: int, n: int) -> int {
    let m = perfect_leaves(k, n);
    let r0 = m * k - n;
    if n <= m || r0 < k {
        0
    } else {
        (r0 - (k - epsilon_from(k, r0, k))) / (k - 1)
    }
}

/// The number of internal nodes of the tree with `n` leaves.
pub open spec fn internal_count(k: int, n: int) -> int {
    let m = perfect_leaves(k, n);
    let g = (m - 1) / (k - 1);
    if n <= m {
        g
    } else {
        g + m - second_to_last_count(k, n)
    }
}

/// A perfect tree of the height of `n` leaves holds at most `n` leaves, and one more level would
/// hold more than `n`.
pub proof fn lemma_height_bounds(k: int, n: int)
    requires
        k >= 2,
        n >= 1,
    ensures
        1 <= perfect_leaves(k, n) <= n < perfect_leaves(k, n) * k,
    decreases n,
{
    let h = tree_height(k, n);
    if n >= k {
        let q = n / k;
        lemma_div_decreases(n, k);
        lemma_fundamental_div_mod(n, k);
        lemma_mod_bound(n, k);
        assert(q >= 1) by {
            lemma_div_is_ordered(k, n, k);
            lemma_div_by_multiple(1, k);
        }
        lemma_height_bounds(k, q);
        let m1 = perfect_leaves(k, q);
        assert(h == 1 + tree_height(k, q));
        lemma_pow_adds(k, 1, tree_height(k, q));
        lemma_pow1(k);
        assert(perfect_leaves(k, n) == k * m1);
        assert(k * m1 <= k * q) by (nonlinear_arith)
            requires
                m1 <= q,
                k >= 2,
        ;
        assert(n < k * m1 * k) by (nonlinear_arith)
            requires
                n == k * q + n % k,
                n % k < k,
                q < m1 * k,
                q + 1 <= m1 * k,
                k >= 2,
        ;
    } else {
        lemma_pow0(k);
    }
}

/// The depth of position `i` in a breadth-first `k`-ary tree: the root is at depth 0.
pub open spec fn depth(i: int, k: int) -> nat
    decreases i,
    via depth_decreases
{
    if i <= 0 || k < 1 {
        0
    } else {
        1 + depth(parent_of(i, k), k)
    }
}

#[via_fn]
proof fn depth_decreases(i: int, k: int) {
    if i > 0 && k >= 1 {
        lemma_parent_child(i, k);
    }
}

/// The first position on level `d`: levels `0 .. d` hold `1 + k + ... + k^(d-1)` nodes.
pub open spec fn level_start(k: int, d: nat) -> int
    decreases d,
{
    if d == 0 {
        0
    } else {
        k * level_start(k, (d - 1) as nat) + 1
    }
}

/// Positions from `level_start(k, d)` up to `level_start(k, d + 1)` sit at depth `d`.
pub proof fn lemma_level_depth(k: int, d: nat, i: int)
    requires
        k >= 2,
        level_start(k, d) <= i < level_start(k, d + 1),
    ensures
        depth(i, k) == d,
    decreases d,
{
    assert(level_start(k, 0) == 0);
    if d == 0 {
        assert(level_start(k, 1) == k * level_start(k, 0) + 1);
        assert(k * 0 == 0);
        assert(i == 0);
    } else {
        let lo = level_start(k, (d - 1) as nat);
        assert(((d - 1) as nat + 1) as nat == d);
        let hi = level_start(k, d);
        assert(level_start(k, d + 1) == k * hi + 1);
        assert(hi == k * lo + 1);
        lemma_level_start_nonneg(k, (d - 1) as nat);
        lemma_div_is_ordered(k * lo, i - 1, k);
        lemma_div_multiples_vanish(lo, k);
        lemma_fundamental_div_mod(i - 1, k);
        lemma_mod_bound(i - 1, k);
        assert((i - 1) / k < hi) by (nonlinear_arith)
            requires
                i - 1 == k * ((i - 1) / k) + (i - 1) % k,
                (i - 1) % k >= 0,
                i - 1 < k * hi,
                k >= 2,
        ;
        lemma_level_depth(k, (d - 1) as nat, (i - 1) / k);
    }
}

pub proof fn lemma_level_start_nonneg(k: int, d: nat)
    requires
        k >= 2,
    ensures
        0 <= level_start(k, d) < level_start(k, d + 1),
    decreases d,
{
    if d > 0 {
        lemma_level_start_nonneg(k, (d - 1) as nat);
        assert(k * level_start(k, (d - 1) as nat) >= 0) by (nonlinear_arith)
            requires
                k >= 2,
                level_start(k, (d - 1) as nat) >= 0,
        ;
        assert(k * level_start(k, d) + 1 > level_start(k, d)) by (nonlinear_arith)
            requires
                k >= 2,
                level_start(k, d) >= 0,
        ;
    }
}

/// Positions before `level_start(k, d + 1)` sit at depth at most `d`.
pub proof fn lemma_depth_below(k: int, d: nat, i: int)
    requires
        k >= 2,
        0 <= i < level_start(k, d + 1),
    ensures
        depth(i, k) <= d,
    decreases d,
{
    lemma_level_start_nonneg(k, d);
    if i >= level_start(k, d) {
        lemma_level_depth(k, d, i);
    } else if d > 0 {
        assert(((d - 1) as nat + 1) as nat == d);
        lemma_depth_below(k, (d - 1) as nat, i);
    } else {
        assert(level_start(k, 0) == 0);
    }
}

/// Level `h` starts after the `(k^h - 1) / (k - 1)` nodes above it, and holds `k^h` nodes.
pub proof fn lemma_level_start_pow(k: int, h: nat)
    requires
        k >= 2,
    ensures
        level_start(k, h) == (pow(k, h) - 1) / (k - 1),
        level_start(k, h + 1) == level_start(k, h) + pow(k, h),
    decreases h,
{
    lemma_geometric(k, h);
    let g = (pow(k, h) - 1) / (k - 1);
    assert(level_start(k, 0) == 0);
    if h == 0 {
        lemma_pow0(k);
        assert(level_start(k, 1) == k * level_start(k, 0) + 1);
        assert(k * 0 == 0);
        assert(g == 0);
    } else {
        lemma_level_start_pow(k, (h - 1) as nat);
        lemma_geometric(k, (h - 1) as nat);
        let p = pow(k, (h - 1) as nat);
        lemma_pow_adds(k, 1, (h - 1) as nat);
        lemma_pow1(k);
        assert(pow(k, h) == k * p);
        assert(level_start(k, h) == k * level_start(k, (h - 1) as nat) + 1);
        assert(level_start(k, h) * (k - 1) == pow(k, h) - 1) by (nonlinear_arith)
            requires
                level_start(k, h) == k * level_start(k, (h - 1) as nat) + 1,
                level_start(k, (h - 1) as nat) * (k - 1) == p - 1,
                pow(k, h) == k * p,
        ;
        lemma_div_by_multiple(level_start(k, h), k - 1);
    }
    assert(level_start(k, h + 1) == k * level_start(k, h) + 1);
    assert(k * g + 1 == g + pow(k, h)) by (nonlinear_arith)
        requires
            g * (k - 1) == pow(k, h) - 1,
    ;
}

/// A perfect tree of height `h` has height `h`, and no leaf on a second level.
pub proof fn lemma_perfect_height(k: int, h: nat)
    requires
        k >= 2,
    ensures
        tree_height(k, pow(k, h)) == h,
        perfect_leaves(k, pow(k, h)) == pow(k, h),
        second_to_last_count(k, pow(k, h)) == 0,
    decreases h,
{
    lemma_pow_positive(k, h);
    if h > 0 {
        lemma_pow_adds(k, 1, (h - 1) as nat);
        lemma_pow1(k);
        lemma_pow_positive(k, (h - 1) as nat);
        let p = pow(k, (h - 1) as nat);
        assert(pow(k, h) == k * p);
        assert(k * p >= k) by (nonlinear_arith)
            requires
                p >= 1,
                k >= 2,
        ;
        assert((k * p) / k == p) by {
            lemma_div_multiples_vanish(p, k);
        }
        lemma_perfect_height(k, (h - 1) as nat);
    } else {
        lemma_pow0(k);
    }
}

/// `k^h - 1` is a multiple of `k - 1`.
pub proof fn lemma_geometric(k: int, h: nat)
    requires
        k >= 2,
    ensures
        (pow(k, h) - 1) / (k - 1) * (k - 1) == pow(k, h) - 1,
        pow(k, h) >= 1,
    decreases h,
{
    if h == 0 {
        lemma_pow0(k);
        assert(pow(k, h) - 1 == 0);
        assert(0int / (k - 1) == 0);
    } else {
        lemma_geometric(k, (h - 1) as nat);
        let p = pow(k, (h - 1) as nat);
        let g = (p - 1) / (k - 1);
        lemma_pow_adds(k, 1, (h - 1) as nat);
        lemma_pow1(k);
        assert(pow(k, h) == k * p);
        assert(k * p - 1 == (k * g + 1) * (k - 1)) by (nonlinear_arith)
            requires
                g * (k - 1) == p - 1,
        ;
        lemma_div_by_multiple(k * g + 1, k - 1);
        assert((pow(k, h) - 1) / (k - 1) == k * g + 1);
        assert(k * p >= 1) by (nonlinear_arith)
            requires
                k >= 2,
                p >= 1,
        ;
    }
}

/// Among the `d` numbers from `x` on, one is a multiple of `d`.
pub proof fn lemma_multiple_within(x: int, d: int) -> (j: int)
    requires
        x >= 0,
        d >= 1,
    ensures
        0 <= j < d,
        (x + j) % d == 0,
{
    lemma_fundamental_div_mod(x, d);
    lemma_mod_bound(x, d);
    if x % d == 0 {
        0
    } else {
        let j = d - x % d;
        assert(x + j == d * (x / d + 1)) by (nonlinear_arith)
            requires
                x == d * (x / d) + x % d,
                j == d - x % d,
        ;
        lemma_mod_multiples_basic(x / d + 1, d);
        assert(d * (x / d + 1) == (x / d + 1) * d) by (nonlinear_arith);
        j
    }
}

} // verus!
