//! The tree itself: a recursive node type, a constructor, child attachment,
//! and breadth-first insertion.
//!
//! The mathematical model of a tree is the partial map from heap positions
//! (see `pos`) to values given by `node_value`: the root holds position 1 and
//! the node at position `i` has its children at `2 * i` and `2 * i + 1`.
//! Insertion fills `first_slot`, the numerically smallest free position whose
//! parent position is occupied — which is exactly the first gap a level-order
//! scan meets.

use vstd::prelude::*;

verus! {

use crate::pos::level;
use crate::pos::in_left;
use crate::pos::rel_pos;
use crate::pos::abs_pos;

/// A binary tree: a value and up to two owned child subtrees.
#[derive(Debug, PartialEq)]
pub struct BinaryTree<T> {
    pub value: T,
    pub left: Option<Box<BinaryTree<T>>>,
    pub right: Option<Box<BinaryTree<T>>>,
}

/// The one failure condition: building a tree from a sequence with no
/// elements, so there is no value to seed the root with.
#[derive(Debug, PartialEq, Eq, Clone, Copy, Structural)]
pub enum TreeError {
    EmptyInput,
}

/// What the complete (left-filled per level) tree over `values` holds at
/// position `i`: counting from 1 in level order, position `i` holds the
/// `i`-th value, and positions beyond the length hold nothing.
pub open spec fn complete_node_value<T>(values: Seq<T>, i: nat) -> Option<T> {
    if 1 <= i <= values.len() {
        Some(values[i - 1])
    } else {
        None
    }
}

impl<T> BinaryTree<T> where T: Copy {
    /// The left child as a tree, stripped of its box.
    pub open spec fn left_tree(self) -> Option<Self> {
        match self.left {
            Some(b) => Some(*b),
            None => None,
        }
    }

    /// The right child as a tree, stripped of its box.
    pub open spec fn right_tree(self) -> Option<Self> {
        match self.right {
            Some(b) => Some(*b),
            None => None,
        }
    }

    /// The subtree rooted at heap position `i`, reached by walking the
    /// left/right steps that `i`'s binary digits record; `None` where the
    /// tree has no node at that position.
    pub open spec fn subtree_at(self, i: nat) -> Option<Self>
        decreases i,
    {
        if i < 1 {
            None
        } else if i == 1 {
            Some(self)
        } else {
            match self.subtree_at(i / 2) {
                None => None,
                Some(s) => if i % 2 == 0 {
                    s.left_tree()
                } else {
                    s.right_tree()
                },
            }
        }
    }

    /// The value at heap position `i`, or `None` where no node sits there.
    /// This map is the tree's model: it determines the tree completely.
    pub open spec fn node_value(self, i: nat) -> Option<T> {
        match self.subtree_at(i) {
            Some(s) => Some(s.value),
            None => None,
        }
    }

    /// Does a node sit at heap position `i`?
    pub open spec fn occupied(self, i: nat) -> bool {
        self.subtree_at(i) is Some
    }

    /// A slot: a free position whose parent position is occupied — a place
    /// where one new leaf can be attached.
    pub open spec fn is_slot(self, i: nat) -> bool {
        &&& i >= 2
        &&& !self.occupied(i)
        &&& self.occupied(i / 2)
    }

    /// The first slot in level order, which is numeric order of positions.
    pub open spec fn is_first_slot(self, i: nat) -> bool {
        &&& self.is_slot(i)
        &&& forall|k: nat| k < i ==> !self.is_slot(k)
    }

    /// The position that insertion fills. Every tree has slots, so exactly
    /// one position satisfies `is_first_slot`.
    pub open spec fn first_slot(self) -> nat {
        choose|i: nat| self.is_first_slot(i)
    }

    /// How many nodes the tree holds.
    pub open spec fn size(self) -> nat
        decreases self,
    {
        1 + (match self.left {
            Some(l) => l.size(),
            None => 0,
        }) + (match self.right {
            Some(r) => r.size(),
            None => 0,
        })
    }

    /// The level of the shallowest slot: 1 where a child of the root is
    /// missing, one more than the shallower child's fill depth otherwise.
    pub open spec fn fill_depth(self) -> nat
        decreases self,
    {
        match (self.left, self.right) {
            (Some(l), Some(r)) => 1 + vstd::math::min(l.fill_depth() as int, r.fill_depth() as int) as nat,
            _ => 1,
        }
    }

    /// Create a new tree of a single node holding `value`.
    pub fn new(value: T) -> (r: Self)
        ensures
            r.value == value,
            r.left is None,
            r.right is None,
            forall|i: nat| r.node_value(i) == (if i == 1 { Some(value) } else { None::<T> }),
    {
        let r = BinaryTree { value, left: None, right: None };
        proof {
            assert forall|i: nat| r.node_value(i) == (if i == 1 { Some(value) } else { None::<T> }) by {
                r.lemma_leaf_positions(i);
            }
        }
        r
    }

    /// In a single-node tree only position 1 is occupied.
    proof fn lemma_leaf_positions(self, i: nat)
        requires
            self.left is None,
            self.right is None,
        ensures
            self.subtree_at(i) == (if i == 1 { Some(self) } else { None::<Self> }),
        decreases i,
    {
        if i >= 2 {
            self.lemma_leaf_positions(i / 2);
        }
    }

    /// Looking up position `i >= 2` is looking up `rel_pos(i)` in the child
    /// that `in_left(i)` names, and finds nothing where that child is absent.
    proof fn lemma_subtree_decompose(self, i: nat)
        requires
            i >= 2,
        ensures
            self.subtree_at(i) == (match (if in_left(i) { self.left_tree() } else { self.right_tree() }) {
                Some(s) => s.subtree_at(rel_pos(i)),
                None => None::<Self>,
            }),
        decreases i,
    {
        crate::pos::lemma_abs_of_rel(i);
        if i <= 3 {
            assert(self.subtree_at(1) == Some(self));
            assert(match (if in_left(i) { self.left_tree() } else { self.right_tree() }) {
                Some(s) => s.subtree_at(1) == Some(s),
                None => true,
            });
        } else {
            self.lemma_subtree_decompose(i / 2);
            crate::pos::lemma_abs_of_rel(i / 2);
            assert(in_left(i) == in_left(i / 2));
            assert(rel_pos(i) == 2 * rel_pos(i / 2) + i % 2);
            assert(rel_pos(i) / 2 == rel_pos(i / 2) && rel_pos(i) % 2 == i % 2);
            assert(rel_pos(i) >= 2);
        }
    }

    /// The same fact from the other side: position `abs_pos(c, j)` of the
    /// whole tree is position `j` of the child at position `c`.
    proof fn lemma_subtree_at_abs(self, c: nat, j: nat)
        requires
            c == 2 || c == 3,
            j >= 1,
        ensures
            self.subtree_at(abs_pos(c, j)) == (match (if c == 2 { self.left_tree() } else { self.right_tree() }) {
                Some(s) => s.subtree_at(j),
                None => None::<Self>,
            }),
    {
        crate::pos::lemma_rel_of_abs(c, j);
        self.lemma_subtree_decompose(abs_pos(c, j));
    }

    /// No slot sits above level `fill_depth`.
    proof fn lemma_fill_depth_lower(self, j: nat)
        requires
            self.is_slot(j),
        ensures
            level(j) >= self.fill_depth(),
        decreases self,
    {
        if j <= 3 {
            // A slot at 2 or 3 means that child is absent, so fill_depth is 1.
            assert(level(2nat) == 1 && level(3nat) == 1);
            if j == 2 {
                assert(self.subtree_at(2) == self.left_tree());
            } else {
                assert(self.subtree_at(3) == self.right_tree());
            }
        } else {
            crate::pos::lemma_abs_of_rel(j);
            crate::pos::lemma_abs_of_rel(j / 2);
            let c: nat = if in_left(j) { 2 } else { 3 };
            self.lemma_subtree_decompose(j);
            self.lemma_subtree_decompose(j / 2);
            assert(in_left(j) == in_left(j / 2));
            assert(rel_pos(j) / 2 == rel_pos(j / 2) && rel_pos(j) >= 2);
            // The slot's parent is occupied, so the child on the slot's side exists.
            let child = if in_left(j) { self.left_tree() } else { self.right_tree() };
            assert(child is Some);
            let s = child.unwrap();
            assert(s.is_slot(rel_pos(j)));
            s.lemma_fill_depth_lower(rel_pos(j));
            assert(level(j) == 1 + level(rel_pos(j)));
        }
    }

    /// Some slot sits exactly at level `fill_depth`.
    proof fn lemma_slot_at_fill_depth(self)
        ensures
            exists|j: nat| self.is_slot(j) && level(j) == self.fill_depth(),
        decreases self,
    {
        assert(self.subtree_at(1) == Some(self));
        assert(level(1nat) == 0);
        assert(level(2nat) == 1 && level(3nat) == 1);
        if self.left is None {
            assert(self.subtree_at(2) == self.left_tree());
            assert(self.is_slot(2) && level(2nat) == 1);
            assert(self.fill_depth() == 1);
        } else if self.right is None {
            assert(self.subtree_at(3) == self.right_tree());
            assert(self.is_slot(3) && level(3nat) == 1);
            assert(self.fill_depth() == 1);
        } else {
            let l = self.left_tree().unwrap();
            let r = self.right_tree().unwrap();
            let (c, s): (nat, Self) = if l.fill_depth() <= r.fill_depth() { (2, l) } else { (3, r) };
            s.lemma_slot_at_fill_depth();
            let j = choose|j: nat| s.is_slot(j) && level(j) == s.fill_depth();
            let big = abs_pos(c, j);
            crate::pos::lemma_rel_of_abs(c, j);
            crate::pos::lemma_abs_pos_bounds(c, j);
            self.lemma_subtree_at_abs(c, j);
            self.lemma_subtree_at_abs(c, j / 2);
            assert(big / 2 == abs_pos(c, j / 2));
            assert(self.is_slot(big));
            assert(level(big) == 1 + s.fill_depth() == self.fill_depth());
        }
    }

    /// Below any slot there is a first one.
    proof fn lemma_min_slot(self, j: nat)
        requires
            self.is_slot(j),
        ensures
            self.is_first_slot(self.first_slot()),
        decreases j,
    {
        if forall|k: nat| k < j ==> !self.is_slot(k) {
            assert(self.is_first_slot(j));
            assert(exists|m: nat| self.is_first_slot(m));
        } else {
            let k = choose|k: nat| k < j && self.is_slot(k);
            self.lemma_min_slot(k);
        }
    }

    /// Only one position is the first slot.
    proof fn lemma_first_slot_is(self, a: nat)
        requires
            self.is_first_slot(a),
        ensures
            self.first_slot() == a,
    {
        self.lemma_min_slot(a);
        let f = self.first_slot();
        if f < a {
            assert(!self.is_slot(f));
        } else if a < f {
            assert(!self.is_slot(a));
        }
    }

    /// The first slot sits exactly at level `fill_depth`.
    proof fn lemma_first_slot_depth(self)
        ensures
            self.is_first_slot(self.first_slot()),
            level(self.first_slot()) == self.fill_depth(),
    {
        self.lemma_slot_at_fill_depth();
        let j = choose|j: nat| self.is_slot(j) && level(j) == self.fill_depth();
        self.lemma_min_slot(j);
        let f = self.first_slot();
        assert(f <= j);
        crate::pos::lemma_level_monotone(f, j);
        self.lemma_fill_depth_lower(f);
    }

    /// With both children present, the first slot of the whole tree is the
    /// first slot of the child whose fill depth is smaller (the left one on a
    /// tie), carried to its absolute position.
    proof fn lemma_descend_first_slot(self, go_left: bool)
        requires
            self.left is Some,
            self.right is Some,
            go_left ==> self.left_tree().unwrap().fill_depth() <= self.right_tree().unwrap().fill_depth(),
            !go_left ==> self.right_tree().unwrap().fill_depth() < self.left_tree().unwrap().fill_depth(),
        ensures
            ({
                let child = if go_left { self.left_tree().unwrap() } else { self.right_tree().unwrap() };
                let c: nat = if go_left { 2 } else { 3 };
                &&& child.is_first_slot(child.first_slot())
                &&& self.is_first_slot(abs_pos(c, child.first_slot()))
                &&& self.first_slot() == abs_pos(c, child.first_slot())
            }),
    {
        let child = if go_left { self.left_tree().unwrap() } else { self.right_tree().unwrap() };
        let c: nat = if go_left { 2nat } else { 3nat };
        child.lemma_first_slot_depth();
        let j = child.first_slot();
        let big = abs_pos(c, j);
        crate::pos::lemma_rel_of_abs(c, j);
        self.lemma_subtree_at_abs(c, j);
        self.lemma_subtree_at_abs(c, j / 2);
        assert(big / 2 == abs_pos(c, j / 2));
        assert(self.is_slot(big));
        assert forall|k: nat| k < big implies !self.is_slot(k) by {
            if self.is_slot(k) {
                assert(self.subtree_at(1) == Some(self));
                if k == 2 || k == 3 {
                    assert(self.subtree_at(2) == self.left_tree());
                    assert(self.subtree_at(3) == self.right_tree());
                } else {
                    crate::pos::lemma_abs_of_rel(k);
                    crate::pos::lemma_abs_of_rel(k / 2);
                    self.lemma_subtree_decompose(k);
                    self.lemma_subtree_decompose(k / 2);
                    let ck: nat = if in_left(k) { 2 } else { 3 };
                    let sk = if in_left(k) { self.left_tree().unwrap() } else { self.right_tree().unwrap() };
                    assert(in_left(k) == in_left(k / 2));
                    assert(rel_pos(k) == 2 * rel_pos(k / 2) + k % 2);
                    assert(rel_pos(k) / 2 == rel_pos(k / 2) && rel_pos(k) >= 2);
                    assert(sk.is_slot(rel_pos(k)));
                    if ck == c {
                        assert(rel_pos(k) >= j);
                        if rel_pos(k) > j {
                            crate::pos::lemma_abs_pos_monotone(c, j, rel_pos(k));
                        }
                        assert(k >= big);
                    } else {
                        sk.lemma_fill_depth_lower(rel_pos(k));
                        if go_left {
                            crate::pos::lemma_abs_pos_level_order(2, j, 3, rel_pos(k));
                        } else {
                            crate::pos::lemma_abs_pos_level_order(3, j, 2, rel_pos(k));
                        }
                        assert(big < k);
                    }
                }
                assert(false);
            }
        }
        assert(self.is_first_slot(big));
        self.lemma_first_slot_is(big);
    }

    /// Attaching a leaf as the missing left child fills slot 2 and moves
    /// nothing else.
    proof fn lemma_attach_left(pre: Self, post: Self, v: T)
        requires
            pre.left is None,
            post.value == pre.value,
            post.right == pre.right,
            (post.left_tree() matches Some(leaf)
                && leaf.value == v && leaf.left is None && leaf.right is None),
        ensures
            pre.is_first_slot(2),
            pre.first_slot() == 2,
            post.node_value(2) == Some(v),
            forall|i: nat| i != 2 ==> post.node_value(i) == pre.node_value(i),
            post.size() == pre.size() + 1,
    {
        let leaf = post.left_tree().unwrap();
        assert(pre.subtree_at(1) == Some(pre) && post.subtree_at(1) == Some(post));
        assert(pre.subtree_at(2) == pre.left_tree());
        assert(post.subtree_at(2) == post.left_tree());
        assert(pre.is_first_slot(2));
        pre.lemma_first_slot_is(2);
        assert(leaf.size() == 1);
        assert forall|i: nat| i != 2 implies post.node_value(i) == pre.node_value(i) by {
            if i == 0 {
                assert(pre.subtree_at(0) is None && post.subtree_at(0) is None);
            } else if i >= 3 {
                pre.lemma_subtree_decompose(i);
                post.lemma_subtree_decompose(i);
                if in_left(i) {
                    crate::pos::lemma_abs_of_rel(i);
                    crate::pos::lemma_abs_of_rel(i / 2);
                    assert(rel_pos(i) >= 2);
                    leaf.lemma_leaf_positions(rel_pos(i));
                }
            }
        }
    }

    /// Attaching a leaf as the missing right child, with the left child
    /// present, fills slot 3 and moves nothing else.
    proof fn lemma_attach_right(pre: Self, post: Self, v: T)
        requires
            pre.left is Some,
            pre.right is None,
            post.value == pre.value,
            post.left == pre.left,
            (post.right_tree() matches Some(leaf)
                && leaf.value == v && leaf.left is None && leaf.right is None),
        ensures
            pre.is_first_slot(3),
            pre.first_slot() == 3,
            post.node_value(3) == Some(v),
            forall|i: nat| i != 3 ==> post.node_value(i) == pre.node_value(i),
            post.size() == pre.size() + 1,
    {
        let leaf = post.right_tree().unwrap();
        assert(pre.subtree_at(1) == Some(pre) && post.subtree_at(1) == Some(post));
        assert(pre.subtree_at(2) == pre.left_tree() && post.subtree_at(2) == post.left_tree());
        assert(pre.subtree_at(3) == pre.right_tree() && post.subtree_at(3) == post.right_tree());
        assert(pre.is_first_slot(3));
        pre.lemma_first_slot_is(3);
        assert(leaf.size() == 1);
        assert forall|i: nat| i != 3 implies post.node_value(i) == pre.node_value(i) by {
            if i == 0 {
                assert(pre.subtree_at(0) is None && post.subtree_at(0) is None);
            } else if i >= 4 {
                pre.lemma_subtree_decompose(i);
                post.lemma_subtree_decompose(i);
                if !in_left(i) {
                    crate::pos::lemma_abs_of_rel(i);
                    crate::pos::lemma_abs_of_rel(i / 2);
                    assert(rel_pos(i) >= 2);
                    leaf.lemma_leaf_positions(rel_pos(i));
                }
            }
        }
    }

    /// Replacing the chosen child by one whose positions gained exactly the
    /// child's first slot gives a tree whose positions gained exactly the
    /// whole tree's first slot.
    proof fn lemma_insert_in_child(pre: Self, post: Self, v: T, go_left: bool, cp: Self, cq: Self)
        requires
            pre.left is Some,
            pre.right is Some,
            post.value == pre.value,
            go_left ==> pre.left_tree().unwrap().fill_depth() <= pre.right_tree().unwrap().fill_depth(),
            !go_left ==> pre.right_tree().unwrap().fill_depth() < pre.left_tree().unwrap().fill_depth(),
            go_left ==> post.right == pre.right && pre.left_tree() == Some(cp) && post.left_tree() == Some(cq),
            !go_left ==> post.left == pre.left && pre.right_tree() == Some(cp) && post.right_tree() == Some(cq),
            cq.node_value(cp.first_slot()) == Some(v),
            forall|m: nat| m != cp.first_slot() ==> cq.node_value(m) == cp.node_value(m),
            cq.size() == cp.size() + 1,
        ensures
            pre.is_first_slot(pre.first_slot()),
            post.node_value(pre.first_slot()) == Some(v),
            forall|i: nat| i != pre.first_slot() ==> post.node_value(i) == pre.node_value(i),
            post.size() == pre.size() + 1,
    {
        let c: nat = if go_left { 2nat } else { 3nat };
        pre.lemma_descend_first_slot(go_left);
        let j = cp.first_slot();
        let big = abs_pos(c, j);
        post.lemma_subtree_at_abs(c, j);
        assert(post.node_value(big) == cq.node_value(j));
        assert forall|i: nat| i != big implies post.node_value(i) == pre.node_value(i) by {
            if i == 0 {
                assert(pre.subtree_at(0) is None && post.subtree_at(0) is None);
            } else if i == 1 {
                assert(pre.subtree_at(1) == Some(pre) && post.subtree_at(1) == Some(post));
            } else {
                pre.lemma_subtree_decompose(i);
                post.lemma_subtree_decompose(i);
                crate::pos::lemma_abs_of_rel(i);
                if in_left(i) == (c == 2) {
                    // The updated side: positions other than `big` kept their values.
                    assert(rel_pos(i) != j);
                    assert(post.node_value(i) == cq.node_value(rel_pos(i)));
                    assert(pre.node_value(i) == cp.node_value(rel_pos(i)));
                    assert(cq.node_value(rel_pos(i)) == cp.node_value(rel_pos(i)));
                    assert(post.node_value(i) == pre.node_value(i));
                } else {
                    // The untouched side.
                    assert(post.subtree_at(i) == pre.subtree_at(i));
                    assert(post.node_value(i) == pre.node_value(i));
                }
            }
        }
    }

    /// A slot can only be this shallow.
    proof fn lemma_fill_depth_le_size(self)
        ensures
            self.fill_depth() <= self.size(),
        decreases self,
    {
        match (self.left, self.right) {
            (Some(l), Some(r)) => {
                l.lemma_fill_depth_le_size();
                r.lemma_fill_depth_le_size();
            }
            _ => {}
        }
    }

    /// Compute the fill depth: how deep the shallowest slot sits.
    fn fill_depth_exec(&self) -> (d: usize)
        requires
            self.size() <= usize::MAX as nat,
        ensures
            d as nat == self.fill_depth(),
        decreases *self,
    {
        match (&self.left, &self.right) {
            (Some(l), Some(r)) => {
                proof {
                    (**l).lemma_fill_depth_le_size();
                    (**r).lemma_fill_depth_le_size();
                }
                let dl = l.fill_depth_exec();
                let dr = r.fill_depth_exec();
                let m = if dl <= dr { dl } else { dr };
                m + 1
            }
            _ => 1,
        }
    }

    /// Insert `new_value` at the first free child position in level order:
    /// scanning level by level, left to right, the new leaf is attached at
    /// the first node with a missing left child, or — failing that on the
    /// node — a missing right child. No other position changes, so one call
    /// grows the tree by exactly one node.
    ///
    /// The bound on `size` only says the tree fits in memory.
    pub fn insert(&mut self, new_value: T)
        requires
            old(self).size() <= usize::MAX as nat,
        ensures
            old(self).is_first_slot(old(self).first_slot()),
            final(self).node_value(old(self).first_slot()) == Some(new_value),
            forall|i: nat| i != old(self).first_slot() ==> final(self).node_value(i)
                == old(self).node_value(i),
            final(self).size() == old(self).size() + 1,
        decreases *old(self),
    {
        if self.left.is_none() {
            self.left = Some(Box::new(BinaryTree { value: new_value, left: None, right: None }));
            proof {
                Self::lemma_attach_left(*old(self), *self, new_value);
            }
        } else if self.right.is_none() {
            self.right = Some(Box::new(BinaryTree { value: new_value, left: None, right: None }));
            proof {
                Self::lemma_attach_right(*old(self), *self, new_value);
            }
        } else {
            let go_left = match (&self.left, &self.right) {
                (Some(l), Some(r)) => l.fill_depth_exec() <= r.fill_depth_exec(),
                _ => true,
            };
            if go_left {
                let mut child = self.left.take().unwrap();
                (&mut *child).insert(new_value);
                self.left = Some(child);
                proof {
                    Self::lemma_insert_in_child(
                        *old(self),
                        *self,
                        new_value,
                        true,
                        old(self).left_tree().unwrap(),
                        self.left_tree().unwrap(),
                    );
                }
            } else {
                let mut child = self.right.take().unwrap();
                (&mut *child).insert(new_value);
                self.right = Some(child);
                proof {
                    Self::lemma_insert_in_child(
                        *old(self),
                        *self,
                        new_value,
                        false,
                        old(self).right_tree().unwrap(),
                        self.right_tree().unwrap(),
                    );
                }
            }
        }
    }

    /// In a tree whose occupied positions are exactly 1 through `k`, the
    /// first slot is `k + 1`: insertion keeps the tree complete.
    proof fn lemma_first_slot_of_filled(self, k: nat)
        requires
            k >= 1,
            forall|i: nat| (#[trigger] self.node_value(i)) is Some <==> 1 <= i <= k,
        ensures
            self.is_first_slot(k + 1),
            self.first_slot() == k + 1,
    {
        assert(self.node_value(k + 1) is None);
        assert(self.node_value((k + 1) / 2) is Some);
        assert(self.is_slot(k + 1));
        assert forall|m: nat| m < k + 1 implies !self.is_slot(m) by {
            if m >= 2 {
                assert(self.node_value(m) is Some);
            }
        }
        self.lemma_first_slot_is(k + 1);
    }

    /// Build a tree from a non-empty sequence: the first value seeds the
    /// root, and each following value is inserted breadth-first. The result
    /// is the complete (left-filled per level) tree that holds the values in
    /// level order — position `i`, counting from 1, holds the `i`-th value.
    /// An empty sequence leaves nothing to seed the root and is refused.
    pub fn from(new_values: &[T]) -> (r: Result<Self, TreeError>)
        ensures
            new_values@.len() == 0 <==> r is Err,
            r is Err ==> r == Err::<Self, TreeError>(TreeError::EmptyInput),
            (r matches Ok(t) ==> forall|i: nat|
                #[trigger] t.node_value(i) == complete_node_value(new_values@, i)),
    {
        if new_values.len() == 0 {
            return Err(TreeError::EmptyInput);
        }
        let mut root = Self::new(new_values[0]);
        let mut idx: usize = 1;
        proof {
            assert(root.size() == 1);
            assert forall|i: nat|
                #[trigger] root.node_value(i) == complete_node_value(new_values@.take(1), i) by {
                assert(new_values@.take(1).len() == 1);
                assert(new_values@.take(1)[0] == new_values@[0]);
            }
        }
        while idx < new_values.len()
            invariant
                1 <= idx as nat <= new_values@.len(),
                new_values@.len() <= usize::MAX as nat,
                root.size() == idx as nat,
                forall|i: nat|
                    #[trigger] root.node_value(i) == complete_node_value(
                        new_values@.take(idx as int),
                        i,
                    ),
            decreases new_values@.len() - idx as nat,
        {
            proof {
                assert forall|i: nat| (#[trigger] root.node_value(i)) is Some <==> 1 <= i
                    <= idx as nat by {
                    assert(root.node_value(i) == complete_node_value(
                        new_values@.take(idx as int),
                        i,
                    ));
                }
                root.lemma_first_slot_of_filled(idx as nat);
            }
            let ghost prev = root;
            root.insert(new_values[idx]);
            idx += 1;
            proof {
                assert forall|i: nat|
                    #[trigger] root.node_value(i) == complete_node_value(
                        new_values@.take(idx as int),
                        i,
                    ) by {
                    let k = (idx - 1) as nat;
                    if i == k + 1 {
                        assert(new_values@.take(idx as int)[k - 1 + 1] == new_values@[k as int]);
                    } else {
                        assert(root.node_value(i) == prev.node_value(i));
                        if 1 <= i <= k {
                            assert(new_values@.take(idx as int)[i - 1] == new_values@[i - 1]);
                            assert(new_values@.take(k as int)[i - 1] == new_values@[i - 1]);
                        }
                    }
                }
            }
        }
        proof {
            assert(new_values@.take(idx as int) =~= new_values@);
        }
        Ok(root)
    }

    /// Set the left child to `node`, overwriting any child already there;
    /// the value and the right child stay as they were. Returns the tree,
    /// for chaining.
    pub fn left(self, node: Self) -> (r: Self)
        ensures
            r.value == self.value,
            r.left_tree() == Some(node),
            r.right == self.right,
    {
        BinaryTree { value: self.value, left: Some(Box::new(node)), right: self.right }
    }

    /// Set the right child to `node`, overwriting any child already there;
    /// the value and the left child stay as they were. Returns the tree,
    /// for chaining.
    pub fn right(self, node: Self) -> (r: Self)
        ensures
            r.value == self.value,
            r.right_tree() == Some(node),
            r.left == self.left,
    {
        BinaryTree { value: self.value, left: self.left, right: Some(Box::new(node)) }
    }

    /// Equality between trees is structural: two trees that hold the same
    /// value at every position are the same tree, so the position map is a
    /// complete description of a tree.
    pub proof fn lemma_node_values_determine_tree(t1: Self, t2: Self)
        requires
            forall|i: nat| #[trigger] t1.node_value(i) == t2.node_value(i),
        ensures
            t1 == t2,
        decreases t1,
    {
        assert(t1.subtree_at(1) == Some(t1) && t2.subtree_at(1) == Some(t2));
        assert(t1.node_value(1) == t2.node_value(1));
        assert(t1.subtree_at(2) == t1.left_tree() && t2.subtree_at(2) == t2.left_tree());
        assert(t1.subtree_at(3) == t1.right_tree() && t2.subtree_at(3) == t2.right_tree());
        assert(t1.node_value(2) == t2.node_value(2));
        assert(t1.node_value(3) == t2.node_value(3));
        if t1.left_tree() is Some {
            let l1 = t1.left_tree().unwrap();
            let l2 = t2.left_tree().unwrap();
            assert forall|j: nat| #[trigger] l1.node_value(j) == l2.node_value(j) by {
                if j >= 1 {
                    t1.lemma_subtree_at_abs(2, j);
                    t2.lemma_subtree_at_abs(2, j);
                    assert(t1.node_value(abs_pos(2, j)) == t2.node_value(abs_pos(2, j)));
                } else {
                    assert(l1.subtree_at(0) is None && l2.subtree_at(0) is None);
                }
            }
            Self::lemma_node_values_determine_tree(l1, l2);
        }
        if t1.right_tree() is Some {
            let r1 = t1.right_tree().unwrap();
            let r2 = t2.right_tree().unwrap();
            assert forall|j: nat| #[trigger] r1.node_value(j) == r2.node_value(j) by {
                if j >= 1 {
                    t1.lemma_subtree_at_abs(3, j);
                    t2.lemma_subtree_at_abs(3, j);
                    assert(t1.node_value(abs_pos(3, j)) == t2.node_value(abs_pos(3, j)));
                } else {
                    assert(r1.subtree_at(0) is None && r2.subtree_at(0) is None);
                }
            }
            Self::lemma_node_values_determine_tree(r1, r2);
        }
    }

    /// Building from a sequence is deterministic: any two trees whose
    /// positions hold exactly the values of one sequence in level order —
    /// as `from` guarantees of its result — are equal. Trees built from the
    /// same sequence are therefore equal.
    pub proof fn lemma_build_deterministic(t1: Self, t2: Self, values: Seq<T>)
        requires
            forall|i: nat| #[trigger] t1.node_value(i) == complete_node_value(values, i),
            forall|i: nat| #[trigger] t2.node_value(i) == complete_node_value(values, i),
        ensures
            t1 == t2,
    {
        assert forall|i: nat| #[trigger] t1.node_value(i) == t2.node_value(i) by {
            assert(t1.node_value(i) == complete_node_value(values, i));
            assert(t2.node_value(i) == complete_node_value(values, i));
        }
        Self::lemma_node_values_determine_tree(t1, t2);
    }
}

} // verus!
