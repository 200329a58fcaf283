//! A bounding volume hierarchy that is built by inserting one primitive at a
//! time and kept height-balanced by rotations.

use crate::geometry::{lemma_union_associative, Aabb, Clip, Ray};
use vstd::arithmetic::power2::{lemma2_to64, lemma2_to64_rest, lemma_pow2_unfold, pow2};
use vstd::multiset::Multiset;
use vstd::prelude::*;

verus! {

/// A node of the hierarchy: a primitive with its box, or two subtrees with the
/// box that holds both and the height of the taller one plus one.
#[derive(Debug)]
pub enum BvhNode<T> {
    Parent { aabb: Aabb, height: u32, left: Box<BvhNode<T>>, right: Box<BvhNode<T>> },
    Leaf { aabb: Aabb, child: T },
}

/// No balanced tree whose leaves can be counted in a `usize` is taller.
pub const MAX_HEIGHT: u32 = 128;

impl<T> BvhNode<T> {
    /// The number of edges on the longest way down to a leaf.
    pub open spec fn spec_height(self) -> nat
        decreases self,
    {
        match self {
            BvhNode::Leaf { .. } => 0,
            BvhNode::Parent { left, right, .. } => {
                let (l, r) = (left.spec_height(), right.spec_height());
                1 + if l >= r { l } else { r }
            },
        }
    }

    /// The box that the node records.
    pub open spec fn spec_aabb(self) -> Aabb {
        match self {
            BvhNode::Leaf { aabb, .. } => aabb,
            BvhNode::Parent { aabb, .. } => aabb,
        }
    }

    /// Height of the right subtree minus height of the left one.
    pub open spec fn spec_balance(self) -> int {
        match self {
            BvhNode::Leaf { .. } => 0,
            BvhNode::Parent { left, right, .. } => right.spec_height() - left.spec_height(),
        }
    }

    /// The number of leaves.
    pub open spec fn count(self) -> nat
        decreases self,
    {
        match self {
            BvhNode::Leaf { .. } => 1,
            BvhNode::Parent { left, right, .. } => left.count() + right.count(),
        }
    }

    /// The primitives below the node, each with its box.
    pub open spec fn entries(self) -> Multiset<(Aabb, T)>
        decreases self,
    {
        match self {
            BvhNode::Leaf { aabb, child } => Multiset::singleton((aabb, child)),
            BvhNode::Parent { left, right, .. } => left.entries().add(right.entries()),
        }
    }

    /// Every parent records the union of its children's boxes and its own
    /// height, and no subtree is taller than `MAX_HEIGHT`.
    pub open spec fn wf(self) -> bool
        decreases self,
    {
        match self {
            BvhNode::Leaf { .. } => true,
            BvhNode::Parent { aabb, height, left, right } => {
                &&& left.wf()
                &&& right.wf()
                &&& height == self.spec_height()
                &&& height <= MAX_HEIGHT + 2
                &&& aabb == left.spec_aabb().spec_union(right.spec_aabb())
            },
        }
    }

    /// At every parent the heights of the two subtrees differ by one at most.
    pub open spec fn balanced(self) -> bool
        decreases self,
    {
        match self {
            BvhNode::Leaf { .. } => true,
            BvhNode::Parent { left, right, .. } => {
                &&& left.balanced()
                &&& right.balanced()
                &&& -1 <= self.spec_balance() <= 1
            },
        }
    }

    /// Both subtrees are balanced; the node itself may be off by two.
    pub open spec fn nearly_balanced(self) -> bool {
        match self {
            BvhNode::Leaf { .. } => true,
            BvhNode::Parent { left, right, .. } => {
                &&& left.balanced()
                &&& right.balanced()
                &&& -2 <= self.spec_balance() <= 2
            },
        }
    }

    /// The parent of two subtrees.
    pub open spec fn spec_parent(left: BvhNode<T>, right: BvhNode<T>) -> BvhNode<T> {
        let (l, r) = (left.spec_height(), right.spec_height());
        BvhNode::Parent {
            aabb: left.spec_aabb().spec_union(right.spec_aabb()),
            height: (1 + if l >= r { l } else { r }) as u32,
            left: Box::new(left),
            right: Box::new(right),
        }
    }

    /// The leaf that holds one primitive.
    pub fn leaf(aabb: Aabb, child: T) -> (node: Self)
        ensures
            node == (BvhNode::Leaf { aabb, child }),
    {
        BvhNode::Leaf { aabb, child }
    }

    fn parent(left: Box<BvhNode<T>>, right: Box<BvhNode<T>>) -> (node: Self)
        requires
            left.wf(),
            right.wf(),
            left.spec_height() <= MAX_HEIGHT + 1,
            right.spec_height() <= MAX_HEIGHT + 1,
        ensures
            node == Self::spec_parent(*left, *right),
            node.wf(),
    {
        let aabb = left.aabb().union(right.aabb());
        let (l, r) = (left.height(), right.height());
        let height = (if l >= r { l } else { r }) + 1;
        BvhNode::Parent { aabb, height, left, right }
    }

    /// The height of the subtree.
    pub fn height(&self) -> (h: u32)
        requires
            self.wf(),
        ensures
            h == self.spec_height(),
            h <= MAX_HEIGHT + 2,
    {
        match self {
            BvhNode::Parent { height, .. } => *height,
            BvhNode::Leaf { .. } => 0,
        }
    }

    fn balance(&self) -> (b: i32)
        requires
            self.wf(),
        ensures
            b == self.spec_balance(),
    {
        match self {
            BvhNode::Parent { left, right, .. } => right.height() as i32 - left.height() as i32,
            BvhNode::Leaf { .. } => 0,
        }
    }

    fn is_balanced(&self) -> (b: bool)
        requires
            self.wf(),
        ensures
            b == (-1 <= self.spec_balance() <= 1),
    {
        let b = self.balance();
        -1 <= b && b <= 1
    }

    /// The box that holds everything below the node.
    pub fn aabb(&self) -> (b: &Aabb)
        ensures
            *b == self.spec_aabb(),
    {
        match self {
            BvhNode::Parent { aabb, .. } => aabb,
            BvhNode::Leaf { aabb, .. } => aabb,
        }
    }
}

impl<T> BvhNode<T> {
    /// The left subtree of a parent.
    pub open spec fn spec_left(self) -> BvhNode<T>
        recommends
            self is Parent,
    {
        *self->left
    }

    /// The right subtree of a parent.
    pub open spec fn spec_right(self) -> BvhNode<T>
        recommends
            self is Parent,
    {
        *self->right
    }

    /// The left child's right subtree changes sides, and the left child
    /// becomes the root.
    pub open spec fn spec_rotate_right(self) -> BvhNode<T>
        recommends
            self is Parent,
            self.spec_left() is Parent,
    {
        let pivot = self.spec_left();
        Self::spec_parent(
            pivot.spec_left(),
            Self::spec_parent(pivot.spec_right(), self.spec_right()),
        )
    }

    /// The right child's left subtree changes sides, and the right child
    /// becomes the root.
    pub open spec fn spec_rotate_left(self) -> BvhNode<T>
        recommends
            self is Parent,
            self.spec_right() is Parent,
    {
        let pivot = self.spec_right();
        Self::spec_parent(
            Self::spec_parent(self.spec_left(), pivot.spec_left()),
            pivot.spec_right(),
        )
    }

    /// A rotation to the left below the left child, then one to the right.
    pub open spec fn spec_rotate_left_right(self) -> BvhNode<T>
        recommends
            self is Parent,
            self.spec_left() is Parent,
            self.spec_left().spec_right() is Parent,
    {
        Self::spec_parent(self.spec_left().spec_rotate_left(), self.spec_right()).spec_rotate_right()
    }

    /// A rotation to the right below the right child, then one to the left.
    pub open spec fn spec_rotate_right_left(self) -> BvhNode<T>
        recommends
            self is Parent,
            self.spec_right() is Parent,
            self.spec_right().spec_left() is Parent,
    {
        Self::spec_parent(self.spec_left(), self.spec_right().spec_rotate_right()).spec_rotate_left()
    }

    /// The node after the rotations that its balance calls for.
    pub open spec fn spec_rebalance(self) -> BvhNode<T> {
        let b = self.spec_balance();
        if -1 <= b <= 1 {
            self
        } else if b < 0 {
            if self.spec_left().spec_balance() <= 0 {
                self.spec_rotate_right()
            } else {
                self.spec_rotate_left_right()
            }
        } else {
            if self.spec_right().spec_balance() >= 0 {
                self.spec_rotate_left()
            } else {
                self.spec_rotate_right_left()
            }
        }
    }

    fn rotate_right(self) -> (node: Self)
        requires
            self.wf(),
            self is Parent,
            self.spec_left() is Parent,
            self.spec_height() <= MAX_HEIGHT + 1,
        ensures
            node == self.spec_rotate_right(),
            node.wf(),
            node.spec_height() <= self.spec_height() + 1,
    {
        proof {
            reveal_with_fuel(BvhNode::wf, 3);
            reveal_with_fuel(BvhNode::spec_height, 3);
        }
        match self {
            BvhNode::Parent { left: root_left, right: root_right, .. } => {
                match *root_left {
                    BvhNode::Parent { left: pivot_left, right: pivot_right, .. } => {
                        let right = Self::parent(pivot_right, root_right);
                        Self::parent(pivot_left, Box::new(right))
                    },
                    BvhNode::Leaf { aabb, child } => {
                        proof {
                            assert(false);
                        }
                        BvhNode::Leaf { aabb, child }
                    },
                }
            },
            BvhNode::Leaf { aabb, child } => BvhNode::Leaf { aabb, child },
        }
    }

    fn rotate_left(self) -> (node: Self)
        requires
            self.wf(),
            self is Parent,
            self.spec_right() is Parent,
            self.spec_height() <= MAX_HEIGHT + 1,
        ensures
            node == self.spec_rotate_left(),
            node.wf(),
            node.spec_height() <= self.spec_height() + 1,
    {
        proof {
            reveal_with_fuel(BvhNode::wf, 3);
            reveal_with_fuel(BvhNode::spec_height, 3);
        }
        match self {
            BvhNode::Parent { left: root_left, right: root_right, .. } => {
                match *root_right {
                    BvhNode::Parent { left: pivot_left, right: pivot_right, .. } => {
                        let left = Self::parent(root_left, pivot_left);
                        Self::parent(Box::new(left), pivot_right)
                    },
                    BvhNode::Leaf { aabb, child } => {
                        proof {
                            assert(false);
                        }
                        BvhNode::Leaf { aabb, child }
                    },
                }
            },
            BvhNode::Leaf { aabb, child } => BvhNode::Leaf { aabb, child },
        }
    }

    fn rotate_left_right(self) -> (node: Self)
        requires
            self.wf(),
            self is Parent,
            self.spec_left() is Parent,
            self.spec_left().spec_right() is Parent,
            self.spec_height() <= MAX_HEIGHT,
        ensures
            node == self.spec_rotate_left_right(),
            node.wf(),
    {
        proof {
            reveal_with_fuel(BvhNode::wf, 3);
            reveal_with_fuel(BvhNode::spec_height, 3);
        }
        match self {
            BvhNode::Parent { left, right, .. } => {
                let left = (*left).rotate_left();
                Self::parent(Box::new(left), right).rotate_right()
            },
            BvhNode::Leaf { aabb, child } => BvhNode::Leaf { aabb, child },
        }
    }

    fn rotate_right_left(self) -> (node: Self)
        requires
            self.wf(),
            self is Parent,
            self.spec_right() is Parent,
            self.spec_right().spec_left() is Parent,
            self.spec_height() <= MAX_HEIGHT,
        ensures
            node == self.spec_rotate_right_left(),
            node.wf(),
    {
        proof {
            reveal_with_fuel(BvhNode::wf, 3);
            reveal_with_fuel(BvhNode::spec_height, 3);
        }
        match self {
            BvhNode::Parent { left, right, .. } => {
                let right = (*right).rotate_right();
                Self::parent(left, Box::new(right)).rotate_left()
            },
            BvhNode::Leaf { aabb, child } => BvhNode::Leaf { aabb, child },
        }
    }
}

impl<T> BvhNode<T> {
    /// What the parent of two subtrees is made of.
    pub proof fn lemma_parent(l: BvhNode<T>, r: BvhNode<T>)
        requires
            l.wf(),
            r.wf(),
            l.spec_height() <= MAX_HEIGHT + 1,
            r.spec_height() <= MAX_HEIGHT + 1,
        ensures
            ({
                let p = Self::spec_parent(l, r);
                &&& p is Parent
                &&& p.wf()
                &&& p.spec_left() == l
                &&& p.spec_right() == r
                &&& p.spec_height() == 1 + if l.spec_height() >= r.spec_height() {
                    l.spec_height()
                } else {
                    r.spec_height()
                }
                &&& p.spec_balance() == r.spec_height() - l.spec_height()
                &&& p.count() == l.count() + r.count()
                &&& p.entries() == l.entries().add(r.entries())
                &&& p.spec_aabb() == l.spec_aabb().spec_union(r.spec_aabb())
                &&& p.balanced() == (l.balanced() && r.balanced() && -1 <= r.spec_height()
                    - l.spec_height() <= 1)
            }),
    {
    }

    /// What a parent is made of.
    pub proof fn lemma_unfold(self)
        requires
            self is Parent,
        ensures
            ({
                let (l, r) = (self.spec_left(), self.spec_right());
                &&& self.spec_height() == 1 + if l.spec_height() >= r.spec_height() {
                    l.spec_height()
                } else {
                    r.spec_height()
                }
                &&& self.count() == l.count() + r.count()
                &&& self.entries() == l.entries().add(r.entries())
                &&& self.balanced() == (l.balanced() && r.balanced() && -1 <= self.spec_balance()
                    <= 1)
                &&& self.wf() ==> l.wf() && r.wf() && self.spec_aabb() == l.spec_aabb().spec_union(
                    r.spec_aabb(),
                ) && self.spec_height() <= MAX_HEIGHT + 2
            }),
    {
    }

    proof fn lemma_rotate_right(self)
        requires
            self.wf(),
            self.nearly_balanced(),
            self.spec_height() <= MAX_HEIGHT,
            self.spec_balance() < -1,
            self.spec_left().spec_balance() <= 0,
        ensures
            self.spec_rotate_right().wf(),
            self.spec_rotate_right().balanced(),
            self.spec_rotate_right().entries() == self.entries(),
            self.spec_rotate_right().count() == self.count(),
            self.spec_rotate_right().spec_aabb() == self.spec_aabb(),
            self.spec_rotate_right().spec_height() <= self.spec_height(),
            self.spec_height() <= self.spec_rotate_right().spec_height() + 1,
    {
        let (l, r) = (self.spec_left(), self.spec_right());
        self.lemma_unfold();
        l.lemma_unfold();
        let (a, c) = (l.spec_left(), l.spec_right());
        Self::lemma_parent(c, r);
        let inner = Self::spec_parent(c, r);
        Self::lemma_parent(a, inner);
        lemma_union_associative(a.spec_aabb(), c.spec_aabb(), r.spec_aabb());
        assert(a.entries().add(c.entries().add(r.entries())) =~= a.entries().add(
            c.entries(),
        ).add(r.entries()));
    }

    proof fn lemma_rotate_left(self)
        requires
            self.wf(),
            self.nearly_balanced(),
            self.spec_height() <= MAX_HEIGHT,
            self.spec_balance() > 1,
            self.spec_right().spec_balance() >= 0,
        ensures
            self.spec_rotate_left().wf(),
            self.spec_rotate_left().balanced(),
            self.spec_rotate_left().entries() == self.entries(),
            self.spec_rotate_left().count() == self.count(),
            self.spec_rotate_left().spec_aabb() == self.spec_aabb(),
            self.spec_rotate_left().spec_height() <= self.spec_height(),
            self.spec_height() <= self.spec_rotate_left().spec_height() + 1,
    {
        let (l, r) = (self.spec_left(), self.spec_right());
        self.lemma_unfold();
        r.lemma_unfold();
        let (a, c) = (r.spec_left(), r.spec_right());
        Self::lemma_parent(l, a);
        let inner = Self::spec_parent(l, a);
        Self::lemma_parent(inner, c);
        lemma_union_associative(l.spec_aabb(), a.spec_aabb(), c.spec_aabb());
        assert(l.entries().add(a.entries().add(c.entries())) =~= l.entries().add(
            a.entries(),
        ).add(c.entries()));
    }

    proof fn lemma_rotate_left_right(self)
        requires
            self.wf(),
            self.nearly_balanced(),
            self.spec_height() <= MAX_HEIGHT,
            self.spec_balance() < -1,
            self.spec_left().spec_balance() > 0,
        ensures
            self.spec_rotate_left_right().wf(),
            self.spec_rotate_left_right().balanced(),
            self.spec_rotate_left_right().entries() == self.entries(),
            self.spec_rotate_left_right().count() == self.count(),
            self.spec_rotate_left_right().spec_aabb() == self.spec_aabb(),
            self.spec_rotate_left_right().spec_height() + 1 == self.spec_height(),
    {
        let (l, r) = (self.spec_left(), self.spec_right());
        self.lemma_unfold();
        l.lemma_unfold();
        let (a, c) = (l.spec_left(), l.spec_right());
        c.lemma_unfold();
        let (c1, c2) = (c.spec_left(), c.spec_right());
        Self::lemma_parent(a, c1);
        let l2 = Self::spec_parent(Self::spec_parent(a, c1), c2);
        Self::lemma_parent(Self::spec_parent(a, c1), c2);
        assert(l.spec_rotate_left() == l2);
        Self::lemma_parent(l2, r);
        let mid = Self::spec_parent(l2, r);
        Self::lemma_parent(c2, r);
        Self::lemma_parent(Self::spec_parent(a, c1), Self::spec_parent(c2, r));
        assert(mid.spec_rotate_right() == Self::spec_parent(
            Self::spec_parent(a, c1),
            Self::spec_parent(c2, r),
        ));
        lemma_union_associative(a.spec_aabb(), c1.spec_aabb(), c2.spec_aabb());
        lemma_union_associative(
            a.spec_aabb().spec_union(c1.spec_aabb()),
            c2.spec_aabb(),
            r.spec_aabb(),
        );
        assert(a.entries().add(c1.entries()).add(c2.entries().add(r.entries())) =~= a.entries().add(
            c1.entries().add(c2.entries()),
        ).add(r.entries()));
    }

    proof fn lemma_rotate_right_left(self)
        requires
            self.wf(),
            self.nearly_balanced(),
            self.spec_height() <= MAX_HEIGHT,
            self.spec_balance() > 1,
            self.spec_right().spec_balance() < 0,
        ensures
            self.spec_rotate_right_left().wf(),
            self.spec_rotate_right_left().balanced(),
            self.spec_rotate_right_left().entries() == self.entries(),
            self.spec_rotate_right_left().count() == self.count(),
            self.spec_rotate_right_left().spec_aabb() == self.spec_aabb(),
            self.spec_rotate_right_left().spec_height() + 1 == self.spec_height(),
    {
        let (l, r) = (self.spec_left(), self.spec_right());
        self.lemma_unfold();
        r.lemma_unfold();
        let (a, c) = (r.spec_left(), r.spec_right());
        a.lemma_unfold();
        let (a1, a2) = (a.spec_left(), a.spec_right());
        Self::lemma_parent(a2, c);
        let r2 = Self::spec_parent(a1, Self::spec_parent(a2, c));
        Self::lemma_parent(a1, Self::spec_parent(a2, c));
        assert(r.spec_rotate_right() == r2);
        Self::lemma_parent(l, r2);
        let mid = Self::spec_parent(l, r2);
        Self::lemma_parent(l, a1);
        Self::lemma_parent(Self::spec_parent(l, a1), Self::spec_parent(a2, c));
        assert(mid.spec_rotate_left() == Self::spec_parent(
            Self::spec_parent(l, a1),
            Self::spec_parent(a2, c),
        ));
        lemma_union_associative(a1.spec_aabb(), a2.spec_aabb(), c.spec_aabb());
        lemma_union_associative(
            l.spec_aabb(),
            a1.spec_aabb(),
            a2.spec_aabb().spec_union(c.spec_aabb()),
        );
        assert(l.entries().add(a1.entries()).add(a2.entries().add(c.entries())) =~= l.entries().add(
            a1.entries().add(a2.entries()).add(c.entries()),
        ));
    }

    /// Rebalancing a node whose subtrees are balanced gives a balanced tree
    /// with the same primitives and the same box, which is as tall as before
    /// or, where a rotation was due, at most one level lower.
    pub proof fn lemma_rebalance(self)
        requires
            self.wf(),
            self.nearly_balanced(),
            self.spec_height() <= MAX_HEIGHT,
        ensures
            self.spec_rebalance().wf(),
            self.spec_rebalance().balanced(),
            self.spec_rebalance().entries() == self.entries(),
            self.spec_rebalance().count() == self.count(),
            self.spec_rebalance().spec_aabb() == self.spec_aabb(),
            -1 <= self.spec_balance() <= 1 ==> self.spec_rebalance() == self,
            self.spec_rebalance().spec_height() <= self.spec_height(),
            self.spec_height() <= self.spec_rebalance().spec_height() + 1,
    {
        let b = self.spec_balance();
        if -1 <= b <= 1 {
            if self is Parent {
                self.lemma_unfold();
            }
        } else if b < 0 {
            if self.spec_left().spec_balance() <= 0 {
                self.lemma_rotate_right();
            } else {
                self.lemma_rotate_left_right();
            }
        } else {
            if self.spec_right().spec_balance() >= 0 {
                self.lemma_rotate_left();
            } else {
                self.lemma_rotate_right_left();
            }
        }
    }

    fn rebalance(self) -> (node: Self)
        requires
            self.wf(),
            self.nearly_balanced(),
            self.spec_height() <= MAX_HEIGHT,
        ensures
            node == self.spec_rebalance(),
            node.wf(),
            node.balanced(),
    {
        proof {
            self.lemma_rebalance();
            if self is Parent {
                self.lemma_unfold();
                if self.spec_left() is Parent {
                    self.spec_left().lemma_unfold();
                }
                if self.spec_right() is Parent {
                    self.spec_right().lemma_unfold();
                }
            }
        }
        if self.is_balanced() {
            return self;
        }
        let balance = self.balance();
        match &self {
            BvhNode::Parent { left, right, .. } => {
                if balance < 0 {
                    if left.balance() <= 0 {
                        self.rotate_right()
                    } else {
                        self.rotate_left_right()
                    }
                } else {
                    if right.balance() >= 0 {
                        self.rotate_left()
                    } else {
                        self.rotate_right_left()
                    }
                }
            },
            BvhNode::Leaf { .. } => self,
        }
    }
}

/// The least number of leaves that a balanced tree of height `h` can have.
pub open spec fn min_count(h: nat) -> nat
    decreases h,
{
    if h == 0 {
        1
    } else if h == 1 {
        2
    } else {
        min_count((h - 1) as nat) + min_count((h - 2) as nat)
    }
}

/// A taller balanced tree needs at least as many leaves.
pub proof fn lemma_min_count_monotonic(a: nat, b: nat)
    requires
        a <= b,
    ensures
        1 <= min_count(a) <= min_count(b),
    decreases b,
{
    if b >= 2 {
        lemma_min_count_monotonic(0, (b - 2) as nat);
        if a < b {
            lemma_min_count_monotonic(a, (b - 1) as nat);
        }
    } else if a < b {
    }
}

/// Two more levels at least double the number of leaves.
pub proof fn lemma_min_count_doubles(k: nat)
    ensures
        min_count(2 * k) >= pow2(k),
    decreases k,
{
    if k == 0 {
        lemma2_to64();
    } else {
        lemma_min_count_doubles((k - 1) as nat);
        lemma_pow2_unfold(k);
        lemma_min_count_monotonic((2 * k - 2) as nat, (2 * k - 1) as nat);
        assert(min_count(2 * k) == min_count((2 * k - 1) as nat) + min_count((2 * k - 2) as nat));
    }
}

impl<T> BvhNode<T> {
    /// A balanced tree has at least the least number of leaves for its height.
    pub proof fn lemma_count_lower_bound(self)
        requires
            self.balanced(),
        ensures
            self.count() >= min_count(self.spec_height()),
        decreases self,
    {
        match self {
            BvhNode::Leaf { .. } => {},
            BvhNode::Parent { left, right, .. } => {
                left.lemma_count_lower_bound();
                right.lemma_count_lower_bound();
                let (hl, hr) = (left.spec_height(), right.spec_height());
                let h = self.spec_height();
                if h >= 2 {
                    if hl >= hr {
                        lemma_min_count_monotonic((h - 2) as nat, hr);
                    } else {
                        lemma_min_count_monotonic((h - 2) as nat, hl);
                    }
                } else {
                    lemma_min_count_monotonic(0, hl);
                    lemma_min_count_monotonic(0, hr);
                }
            },
        }
    }

    /// The height of a balanced tree is logarithmic in the number of its
    /// leaves: one whose leaves can be counted in a `usize` is lower than
    /// `MAX_HEIGHT`.
    pub proof fn lemma_height_bound(self)
        requires
            self.balanced(),
            self.count() <= usize::MAX,
        ensures
            self.spec_height() < MAX_HEIGHT,
    {
        self.lemma_count_lower_bound();
        if self.spec_height() >= MAX_HEIGHT {
            lemma_min_count_monotonic(128, self.spec_height());
            lemma_min_count_doubles(64);
            lemma2_to64_rest();
        }
    }
}

impl<T> BvhNode<T> {
    /// The tree after a primitive went in: down from the root into the
    /// child whose box shares the larger volume with the new box (the right
    /// one where neither does), in place of the leaf that is reached a
    /// parent of that leaf and the new one, and every node on the way back
    /// rebalanced.
    pub open spec fn spec_insert(self, aabb: Aabb, child: T) -> BvhNode<T>
        decreases self,
    {
        match self {
            BvhNode::Leaf { .. } => Self::spec_parent(self, BvhNode::Leaf { aabb, child }),
            BvhNode::Parent { left, right, .. } => {
                if aabb.spec_overlap(left.spec_aabb()) > aabb.spec_overlap(right.spec_aabb()) {
                    Self::spec_parent(left.spec_insert(aabb, child), *right).spec_rebalance()
                } else {
                    Self::spec_parent(*left, right.spec_insert(aabb, child)).spec_rebalance()
                }
            },
        }
    }

    /// Inserting into a balanced tree gives a balanced tree that holds the
    /// new primitive besides the old ones, spans the old box and the new
    /// one, and is as tall as before or one level taller.
    pub proof fn lemma_insert(self, aabb: Aabb, child: T)
        requires
            self.wf(),
            self.balanced(),
            self.spec_height() < MAX_HEIGHT,
        ensures
            self.spec_insert(aabb, child).wf(),
            self.spec_insert(aabb, child).balanced(),
            self.spec_insert(aabb, child).entries() == self.entries().insert((aabb, child)),
            self.spec_insert(aabb, child).count() == self.count() + 1,
            self.spec_insert(aabb, child).spec_aabb() == self.spec_aabb().spec_union(aabb),
            self.spec_height() <= self.spec_insert(aabb, child).spec_height()
                <= self.spec_height() + 1,
        decreases self,
    {
        let leaf: BvhNode<T> = BvhNode::Leaf { aabb, child };
        match self {
            BvhNode::Leaf { .. } => {
                Self::lemma_parent(self, leaf);
                assert(self.entries().add(leaf.entries()) =~= self.entries().insert((aabb, child)));
            },
            BvhNode::Parent { left, right, .. } => {
                self.lemma_unfold();
                let (l, r) = (*left, *right);
                if aabb.spec_overlap(l.spec_aabb()) > aabb.spec_overlap(r.spec_aabb()) {
                    l.lemma_insert(aabb, child);
                    let l2 = l.spec_insert(aabb, child);
                    Self::lemma_parent(l2, r);
                    let p = Self::spec_parent(l2, r);
                    p.lemma_rebalance();
                    assert(l.entries().insert((aabb, child)).add(r.entries())
                        =~= self.entries().insert((aabb, child)));
                    assert(p.spec_aabb() == self.spec_aabb().spec_union(aabb));
                } else {
                    r.lemma_insert(aabb, child);
                    let r2 = r.spec_insert(aabb, child);
                    Self::lemma_parent(l, r2);
                    let p = Self::spec_parent(l, r2);
                    p.lemma_rebalance();
                    assert(l.entries().add(r.entries().insert((aabb, child)))
                        =~= self.entries().insert((aabb, child)));
                    lemma_union_associative(l.spec_aabb(), r.spec_aabb(), aabb);
                }
            },
        }
    }

    /// Puts a primitive into the tree.
    pub fn insert(self, aabb: Aabb, child: T) -> (node: Self)
        requires
            self.wf(),
            self.balanced(),
            self.spec_height() < MAX_HEIGHT,
        ensures
            node == self.spec_insert(aabb, child),
            node.wf(),
            node.balanced(),
            node.entries() == self.entries().insert((aabb, child)),
            node.count() == self.count() + 1,
            node.spec_aabb() == self.spec_aabb().spec_union(aabb),
            self.spec_height() <= node.spec_height() <= self.spec_height() + 1,
        decreases self,
    {
        proof {
            self.lemma_insert(aabb, child);
            if self is Parent {
                self.lemma_unfold();
            }
        }
        match self {
            BvhNode::Leaf { aabb: own, child: held } => {
                let left = BvhNode::Leaf { aabb: own, child: held };
                let right = BvhNode::Leaf { aabb, child };
                Self::parent(Box::new(left), Box::new(right))
            },
            BvhNode::Parent { left, right, .. } => {
                let node = if aabb.overlap(left.aabb()) > aabb.overlap(right.aabb()) {
                    let grown = (*left).insert(aabb, child);
                    proof {
                        Self::lemma_parent(grown, *right);
                    }
                    Self::parent(Box::new(grown), right)
                } else {
                    let grown = (*right).insert(aabb, child);
                    proof {
                        Self::lemma_parent(*left, grown);
                    }
                    Self::parent(left, Box::new(grown))
                };
                node.rebalance()
            },
        }
    }
}

impl<T> BvhNode<T> {
    /// The node that a way down from this one leads to, a step to the right
    /// for every `true` and one to the left for every `false`; none where
    /// the way goes on below a leaf.
    pub open spec fn descend(self, path: Seq<bool>) -> Option<BvhNode<T>>
        decreases path.len(),
    {
        if path.len() == 0 {
            Some(self)
        } else {
            match self {
                BvhNode::Leaf { .. } => None,
                BvhNode::Parent { left, right, .. } => if path[0] {
                    right.descend(path.drop_first())
                } else {
                    left.descend(path.drop_first())
                },
            }
        }
    }

    /// In a balanced tree the two subtrees of every node, however deep it
    /// lies, differ in height by one at most.
    pub proof fn lemma_balanced_everywhere(self, path: Seq<bool>)
        requires
            self.balanced(),
        ensures
            self.descend(path) matches Some(node) ==> node.balanced() && -1 <= node.spec_balance()
                <= 1,
        decreases path.len(),
    {
        if path.len() > 0 {
            match self {
                BvhNode::Leaf { .. } => {},
                BvhNode::Parent { left, right, .. } => {
                    if path[0] {
                        right.lemma_balanced_everywhere(path.drop_first());
                    } else {
                        left.lemma_balanced_everywhere(path.drop_first());
                    }
                },
            }
        }
    }
}

/// The hierarchy over a scene's primitives.
#[derive(Debug)]
pub struct Bvh<T> {
    len: usize,
    height: u32,
    root: Option<BvhNode<T>>,
}

/// The tree that inserting the primitives one after the other builds.
#[verifier::opaque]
pub open spec fn spec_build<T>(objects: Seq<(Aabb, T)>) -> Option<BvhNode<T>>
    decreases objects.len(),
{
    if objects.len() == 0 {
        None
    } else {
        let (aabb, child) = objects.last();
        match spec_build(objects.drop_last()) {
            None => Some(BvhNode::Leaf { aabb, child }),
            Some(root) => Some(root.spec_insert(aabb, child)),
        }
    }
}

/// Before the first primitive there is no tree.
proof fn lemma_build_start<T>(all: Seq<(Aabb, T)>)
    ensures
        spec_build(all.take(0)) == None::<BvhNode<T>>,
        all.take(0).to_multiset() == Multiset::<(Aabb, T)>::empty(),
{
    reveal(spec_build);
    assert(all.take(0) =~= Seq::<(Aabb, T)>::empty());
    assert(all.take(0).to_multiset() =~= Multiset::<(Aabb, T)>::empty()) by {
        vstd::seq_lib::to_multiset_len(all.take(0));
        vstd::multiset::lemma_multiset_empty_len(all.take(0).to_multiset());
    }
}

/// What one more primitive adds to the tree that is built.
proof fn lemma_build_step<T>(all: Seq<(Aabb, T)>, i: int)
    requires
        0 <= i < all.len(),
    ensures
        spec_build(all.take(i + 1)) == Some(
            match spec_build(all.take(i)) {
                None => BvhNode::Leaf { aabb: all[i].0, child: all[i].1 },
                Some(root) => root.spec_insert(all[i].0, all[i].1),
            },
        ),
        all.take(i + 1).to_multiset() == all.take(i).to_multiset().insert(all[i]),
{
    reveal(spec_build);
    assert(all.take(i + 1).drop_last() =~= all.take(i));
    assert(all.take(i + 1).last() == all[i]);
    assert(all.take(i + 1) =~= all.take(i).push(all[i]));
    vstd::seq_lib::to_multiset_build(all.take(i), all[i]);
}

/// Inserting primitives one after the other builds a balanced tree in good
/// standing that holds exactly those primitives.
pub proof fn lemma_build<T>(objects: Seq<(Aabb, T)>)
    requires
        objects.len() <= usize::MAX,
    ensures
        spec_build(objects) is None <==> objects.len() == 0,
        spec_build(objects) matches Some(root) ==> {
            &&& root.wf()
            &&& root.balanced()
            &&& root.count() == objects.len()
            &&& root.entries() == objects.to_multiset()
        },
    decreases objects.len(),
{
    reveal(spec_build);
    if objects.len() > 0 {
        let rest = objects.drop_last();
        let (aabb, child) = objects.last();
        lemma_build(rest);
        assert(rest.push(objects.last()) =~= objects);
        vstd::seq_lib::to_multiset_build(rest, objects.last());
        match spec_build(rest) {
            None => {
                assert(rest =~= Seq::<(Aabb, T)>::empty());
                vstd::seq_lib::to_multiset_len(rest);
                vstd::multiset::lemma_multiset_empty_len(rest.to_multiset());
                assert(Multiset::<(Aabb, T)>::empty().insert((aabb, child))
                    =~= Multiset::singleton((aabb, child)));
            },
            Some(root) => {
                root.lemma_height_bound();
                root.lemma_insert(aabb, child);
            },
        }
    }
}

/// The order in which primitives are inserted shapes the tree, but not what
/// it holds: two trees built from the same primitives in two orders hold the
/// same primitives, so a search over the one looks through the same
/// primitives as a search over the other.
pub proof fn lemma_insertion_order<T>(first: Seq<(Aabb, T)>, second: Seq<(Aabb, T)>)
    requires
        first.len() <= usize::MAX,
        first.to_multiset() == second.to_multiset(),
    ensures
        first.len() == second.len(),
        spec_build(first) is Some == spec_build(second) is Some,
        spec_build(first) matches Some(a) ==> spec_build(second) matches Some(b) && a.entries()
            == b.entries() && a.count() == b.count(),
{
    vstd::seq_lib::to_multiset_len(first);
    vstd::seq_lib::to_multiset_len(second);
    lemma_build(first);
    lemma_build(second);
}

impl<T> Bvh<T> {
    /// The root of the tree, if there is a primitive at all.
    pub closed spec fn spec_root(self) -> Option<BvhNode<T>> {
        self.root
    }

    /// The number of primitives that the hierarchy records.
    pub closed spec fn spec_len(self) -> nat {
        self.len as nat
    }

    /// The number of levels that the hierarchy records.
    pub closed spec fn spec_height(self) -> nat {
        self.height as nat
    }

    /// The tree is balanced at every node, every node's box and height are
    /// right, and the recorded number of primitives and of levels are those
    /// of the tree.
    pub open spec fn wf(self) -> bool {
        match self.spec_root() {
            None => self.spec_len() == 0 && self.spec_height() == 0,
            Some(root) => {
                &&& root.wf()
                &&& root.balanced()
                &&& self.spec_len() == root.count()
                &&& self.spec_height() == root.spec_height() + 1
            },
        }
    }

    /// The primitives in the hierarchy, each with its box.
    pub open spec fn entries(self) -> Multiset<(Aabb, T)> {
        match self.spec_root() {
            None => Multiset::empty(),
            Some(root) => root.entries(),
        }
    }

    /// The hierarchy without a primitive.
    pub fn new() -> (bvh: Self)
        ensures
            bvh.wf(),
            bvh.spec_root() is None,
            bvh.spec_len() == 0,
            bvh.entries() == Multiset::<(Aabb, T)>::empty(),
    {
        Bvh { len: 0, height: 0, root: None }
    }

    /// The number of primitives.
    pub fn len(&self) -> (n: usize)
        ensures
            n == self.spec_len(),
    {
        self.len
    }

    /// Whether there is no primitive.
    pub fn is_empty(&self) -> (b: bool)
        ensures
            b == (self.spec_len() == 0),
    {
        self.len == 0
    }

    /// The number of levels: none for the empty hierarchy, one for a single
    /// primitive.
    pub fn height(&self) -> (h: u32)
        ensures
            h == self.spec_height(),
    {
        self.height
    }

    /// The root of the tree, if there is a primitive at all.
    pub fn root(&self) -> (r: Option<&BvhNode<T>>)
        ensures
            r.is_some() == self.spec_root().is_some(),
            r matches Some(node) ==> *node == self.spec_root()->0,
    {
        self.root.as_ref()
    }

    /// Puts one more primitive into the hierarchy.
    pub fn insert(&mut self, aabb: Aabb, child: T)
        requires
            old(self).wf(),
            old(self).spec_len() < usize::MAX,
        ensures
            final(self).wf(),
            final(self).spec_root() == Some(
                match old(self).spec_root() {
                    None => BvhNode::Leaf { aabb, child },
                    Some(root) => root.spec_insert(aabb, child),
                },
            ),
            final(self).spec_len() == old(self).spec_len() + 1,
            final(self).entries() == old(self).entries().insert((aabb, child)),
    {
        let grown = match self.root.take() {
            None => {
                assert(Multiset::<(Aabb, T)>::empty().insert((aabb, child))
                    =~= Multiset::singleton((aabb, child)));
                BvhNode::Leaf { aabb, child }
            },
            Some(root) => {
                proof {
                    root.lemma_height_bound();
                }
                root.insert(aabb, child)
            },
        };
        self.len = self.len + 1;
        self.height = grown.height() + 1;
        self.root = Some(grown);
    }

    /// The hierarchy is the one that inserting the given primitives in
    /// their order builds.
    #[verifier::opaque]
    pub open spec fn built_from(self, objects: Seq<(Aabb, T)>) -> bool {
        &&& self.wf()
        &&& self.spec_root() == spec_build(objects)
        &&& self.spec_len() == objects.len()
        &&& self.entries() == objects.to_multiset()
    }

    fn grow(&mut self, aabb: Aabb, child: T, Ghost(prefix): Ghost<Seq<(Aabb, T)>>)
        requires
            old(self).built_from(prefix),
            prefix.len() < usize::MAX,
        ensures
            final(self).built_from(prefix.push((aabb, child))),
    {
        proof {
            reveal(Bvh::built_from);
            let all = prefix.push((aabb, child));
            assert(all.take(prefix.len() as int) =~= prefix);
            assert(all.take(prefix.len() as int + 1) =~= all);
            lemma_build_step(all, prefix.len() as int);
        }
        self.insert(aabb, child);
    }

    /// The hierarchy that inserting the primitives in their order builds.
    pub fn from_vec(objects: Vec<(Aabb, T)>) -> (bvh: Self)
        ensures
            bvh.wf(),
            bvh.spec_root() == spec_build(objects@),
            bvh.spec_len() == objects.len(),
            bvh.entries() == objects@.to_multiset(),
    {
        let ghost all = objects@;
        assert(all.len() == objects.len());
        let mut rest = objects;
        let mut stack: Vec<(Aabb, T)> = Vec::new();
        while rest.len() > 0
            invariant
                all.len() <= usize::MAX,
                rest@.len() + stack@.len() == all.len(),
                forall|j: int| 0 <= j < rest@.len() ==> rest@[j] == all[j],
                forall|j: int| 0 <= j < stack@.len() ==> stack@[j] == all[all.len() - 1 - j],
            decreases rest.len(),
        {
            let object = rest.pop().unwrap();
            stack.push(object);
        }
        let mut bvh = Bvh::new();
        proof {
            lemma_build_start(all);
            reveal(Bvh::built_from);
        }
        while stack.len() > 0
            invariant
                stack@.len() <= all.len() <= usize::MAX,
                forall|j: int| 0 <= j < stack@.len() ==> stack@[j] == all[all.len() - 1 - j],
                bvh.built_from(all.take(all.len() - stack@.len())),
            decreases stack.len(),
        {
            let ghost i: int = all.len() - stack@.len();
            let (aabb, child) = stack.pop().unwrap();
            proof {
                assert(all.take(i).push((aabb, child)) =~= all.take(i + 1));
            }
            bvh.grow(aabb, child, Ghost(all.take(i)));
        }
        proof {
            assert(all.take(all.len() as int) =~= all);
            reveal(Bvh::built_from);
        }
        bvh
    }
}

} // verus!
