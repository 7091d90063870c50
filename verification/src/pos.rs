//! Arithmetic on heap positions.
//!
//! Nodes of a binary tree are addressed by the positions of an implicit heap
//! array, numbered from 1: the root sits at position 1, and the node at
//! position `i` has its left child at `2 * i` and its right child at
//! `2 * i + 1`. Level order (level by level, left to right within a level) is
//! then exactly the numeric order of positions.

use vstd::prelude::*;

verus! {

use vstd::arithmetic::power2::pow2;
use vstd::arithmetic::power2::lemma_pow2_unfold;
use vstd::arithmetic::power2::lemma_pow2_strictly_increases;
use vstd::arithmetic::power2::lemma_pow2_pos;
use vstd::arithmetic::power2::lemma2_to64;

/// The level of position `i`: the root's level is 0, and each step to a child
/// adds one.
pub open spec fn level(i: nat) -> nat
    decreases i,
{
    if i <= 1 {
        0
    } else {
        1 + level(i / 2)
    }
}

/// Does position `i` (for `i >= 2`) lie in the subtree rooted at the root's
/// left child, position 2?
pub open spec fn in_left(i: nat) -> bool
    decreases i,
{
    if i <= 3 {
        i == 2
    } else {
        in_left(i / 2)
    }
}

/// The position of `i` (for `i >= 2`) relative to the root's child it
/// descends from: that child itself maps to 1, and every left/right step
/// below it is kept.
pub open spec fn rel_pos(i: nat) -> nat
    decreases i,
{
    if i <= 3 {
        1
    } else {
        2 * rel_pos(i / 2) + i % 2
    }
}

/// The absolute position of relative position `j` within the subtree rooted
/// at position `c`: `abs_pos(c, 1) == c`, and every left/right step is kept.
pub open spec fn abs_pos(c: nat, j: nat) -> nat
    decreases j,
{
    if j <= 1 {
        c
    } else {
        2 * abs_pos(c, j / 2) + j % 2
    }
}

/// Position `i` at level `l` lies in the half-open range
/// `[pow2(l), 2 * pow2(l))`.
pub proof fn lemma_level_bounds(i: nat)
    requires
        i >= 1,
    ensures
        pow2(level(i)) <= i < 2 * pow2(level(i)),
    decreases i,
{
    if i <= 1 {
        lemma2_to64();
    } else {
        lemma_level_bounds(i / 2);
        lemma_pow2_unfold(level(i));
    }
}

/// Levels never decrease as positions grow.
pub proof fn lemma_level_monotone(i: nat, j: nat)
    requires
        1 <= i <= j,
    ensures
        level(i) <= level(j),
{
    if level(j) < level(i) {
        lemma_level_bounds(i);
        lemma_level_bounds(j);
        lemma_pow2_unfold(level(j) + 1);
        if level(j) + 1 < level(i) {
            lemma_pow2_strictly_increases(level(j) + 1, level(i));
        }
        assert(false);
    }
}

/// Descending by `j` below position `c` lands `level(j)` levels deeper,
/// inside the numeric range that the subtree at `c` occupies there.
pub proof fn lemma_abs_pos_bounds(c: nat, j: nat)
    requires
        c == 2 || c == 3,
        j >= 1,
    ensures
        level(abs_pos(c, j)) == 1 + level(j),
        c * pow2(level(j)) <= abs_pos(c, j) < (c + 1) * pow2(level(j)),
    decreases j,
{
    if j <= 1 {
        lemma2_to64();
        assert(c * pow2(0) == c && (c + 1) * pow2(0) == c + 1) by (nonlinear_arith)
            requires
                pow2(0) == 1,
        ;
    } else {
        lemma_abs_pos_bounds(c, j / 2);
        lemma_pow2_unfold(level(j));
        lemma_pow2_pos(level(j / 2));
        let a = abs_pos(c, j / 2);
        let p = pow2(level(j / 2));
        assert(abs_pos(c, j) == 2 * a + j % 2);
        assert(a >= 2) by (nonlinear_arith)
            requires
                c >= 2,
                p >= 1,
                a >= c * p,
        ;
        assert(abs_pos(c, j) / 2 == a);
        assert(c * (2 * p) <= 2 * a + j % 2 < (c + 1) * (2 * p)) by (nonlinear_arith)
            requires
                c * p <= a,
                a < (c + 1) * p,
                0 <= j % 2 < 2,
                p >= 1,
        ;
    }
}

/// `abs_pos(c, _)` is strictly increasing.
pub proof fn lemma_abs_pos_monotone(c: nat, j1: nat, j2: nat)
    requires
        c == 2 || c == 3,
        1 <= j1 < j2,
    ensures
        abs_pos(c, j1) < abs_pos(c, j2),
    decreases j2,
{
    lemma_level_monotone(j1, j2);
    lemma_abs_pos_bounds(c, j1);
    lemma_abs_pos_bounds(c, j2);
    if level(j1) == level(j2) {
        // Same level: walk the two positions down in step.
        if j1 <= 1 {
            // level(j2) == 0 forces j2 <= 1, impossible next to j1 < j2.
            lemma_level_bounds(j2);
            lemma2_to64();
        } else if j1 / 2 == j2 / 2 {
            assert(j1 % 2 == 0 && j2 % 2 == 1);
        } else {
            lemma_abs_pos_monotone(c, j1 / 2, j2 / 2);
        }
    } else {
        // level(j1) + 1 <= level(j2): the ranges are disjoint.
        lemma_pow2_unfold(level(j1) + 1);
        if level(j1) + 1 < level(j2) {
            lemma_pow2_strictly_increases(level(j1) + 1, level(j2));
        }
        lemma_pow2_pos(level(j1));
        assert(abs_pos(c, j1) < abs_pos(c, j2)) by (nonlinear_arith)
            requires
                c >= 2,
                abs_pos(c, j1) < (c + 1) * pow2(level(j1)),
                abs_pos(c, j2) >= c * pow2(level(j2)),
                2 * pow2(level(j1)) <= pow2(level(j2)),
                pow2(level(j1)) >= 1,
        ;
    }
}

/// Level order between the two halves: a position reached by a shorter
/// descent comes first, and on equal descents the left child's half comes
/// before the right child's.
pub proof fn lemma_abs_pos_level_order(c1: nat, j1: nat, c2: nat, j2: nat)
    requires
        c1 == 2 || c1 == 3,
        c2 == 2 || c2 == 3,
        j1 >= 1,
        j2 >= 1,
        level(j1) < level(j2) || (level(j1) == level(j2) && c1 < c2),
    ensures
        abs_pos(c1, j1) < abs_pos(c2, j2),
{
    lemma_abs_pos_bounds(c1, j1);
    lemma_abs_pos_bounds(c2, j2);
    lemma_pow2_pos(level(j1));
    if level(j1) < level(j2) {
        lemma_pow2_unfold(level(j1) + 1);
        if level(j1) + 1 < level(j2) {
            lemma_pow2_strictly_increases(level(j1) + 1, level(j2));
        }
        assert(abs_pos(c1, j1) < abs_pos(c2, j2)) by (nonlinear_arith)
            requires
                2 <= c1 <= 3,
                c2 >= 2,
                abs_pos(c1, j1) < (c1 + 1) * pow2(level(j1)),
                abs_pos(c2, j2) >= c2 * pow2(level(j2)),
                2 * pow2(level(j1)) <= pow2(level(j2)),
                pow2(level(j1)) >= 1,
        ;
    } else {
        assert(abs_pos(c1, j1) < abs_pos(c2, j2)) by (nonlinear_arith)
            requires
                c1 + 1 <= c2,
                abs_pos(c1, j1) < (c1 + 1) * pow2(level(j1)),
                abs_pos(c2, j2) >= c2 * pow2(level(j2)),
                pow2(level(j1)) == pow2(level(j2)),
        ;
    }
}

/// `rel_pos` undoes `abs_pos`: a position rebuilt from its half and its
/// relative position is itself.
pub proof fn lemma_abs_of_rel(i: nat)
    requires
        i >= 2,
    ensures
        rel_pos(i) >= 1,
        level(rel_pos(i)) + 1 == level(i),
        abs_pos(if in_left(i) { 2nat } else { 3nat }, rel_pos(i)) == i,
    decreases i,
{
    if i <= 3 {
    } else {
        lemma_abs_of_rel(i / 2);
        let c: nat = if in_left(i) { 2 } else { 3 };
        assert(rel_pos(i) == 2 * rel_pos(i / 2) + i % 2);
        assert(rel_pos(i) / 2 == rel_pos(i / 2) && rel_pos(i) % 2 == i % 2);
        assert(abs_pos(c, rel_pos(i)) == 2 * abs_pos(c, rel_pos(i / 2)) + i % 2);
    }
}

/// `abs_pos` undoes `rel_pos`: descending from child `c` by `j` lands in
/// `c`'s half, at relative position `j`.
pub proof fn lemma_rel_of_abs(c: nat, j: nat)
    requires
        c == 2 || c == 3,
        j >= 1,
    ensures
        abs_pos(c, j) >= 2,
        in_left(abs_pos(c, j)) == (c == 2),
        rel_pos(abs_pos(c, j)) == j,
    decreases j,
{
    if j <= 1 {
    } else {
        lemma_rel_of_abs(c, j / 2);
        assert(abs_pos(c, j) == 2 * abs_pos(c, j / 2) + j % 2);
        assert(abs_pos(c, j) / 2 == abs_pos(c, j / 2) && abs_pos(c, j) % 2 == j % 2);
        assert(abs_pos(c, j) >= 4);
    }
}

} // verus!
