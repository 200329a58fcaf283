//! Walking the hierarchy: every primitive once, in a fixed order.

use crate::bvh::{Bvh, BvhNode};
use crate::geometry::Aabb;
use vstd::multiset::Multiset;
use vstd::prelude::*;
use vstd::seq_lib::lemma_multiset_commutative;

verus! {

impl<T> BvhNode<T> {
    /// The primitives below the node in the order in which a walk meets
    /// them: depth first, and at every parent first into the lower subtree
    /// (into the right one where both are of one height).
    pub open spec fn order(self) -> Seq<(Aabb, T)>
        decreases self,
    {
        match self {
            BvhNode::Leaf { aabb, child } => seq![(aabb, child)],
            BvhNode::Parent { left, right, .. } => {
                if left.spec_height() < right.spec_height() {
                    left.order() + right.order()
                } else {
                    right.order() + left.order()
                }
            },
        }
    }

    /// A walk meets every primitive below the node exactly once: as a
    /// multiset, what it meets is what the node holds.
    pub proof fn lemma_order_complete(self)
        ensures
            self.order().len() == self.count(),
            self.order().len() >= 1,
            self.order().to_multiset() == self.entries(),
        decreases self,
    {
        match self {
            BvhNode::Leaf { aabb, child } => {
                let s = seq![(aabb, child)];
                assert(s =~= Seq::<(Aabb, T)>::empty().push((aabb, child)));
                vstd::seq_lib::to_multiset_build(Seq::<(Aabb, T)>::empty(), (aabb, child));
                vstd::seq_lib::to_multiset_len(Seq::<(Aabb, T)>::empty());
                vstd::multiset::lemma_multiset_empty_len(
                    Seq::<(Aabb, T)>::empty().to_multiset(),
                );
                assert(Multiset::<(Aabb, T)>::empty().insert((aabb, child))
                    =~= Multiset::singleton((aabb, child)));
            },
            BvhNode::Parent { left, right, .. } => {
                left.lemma_order_complete();
                right.lemma_order_complete();
                lemma_multiset_commutative(left.order(), right.order());
                lemma_multiset_commutative(right.order(), left.order());
                assert(right.entries().add(left.entries()) =~= left.entries().add(
                    right.entries(),
                ));
            },
        }
    }
}

/// What a walk has still to meet when these subtrees are left, the last of
/// them first.
pub open spec fn pending<T>(stack: Seq<&BvhNode<T>>) -> Seq<(Aabb, T)>
    decreases stack.len(),
{
    if stack.len() == 0 {
        Seq::empty()
    } else {
        stack.last().order() + pending(stack.drop_last())
    }
}

proof fn lemma_pending_push<T>(stack: Seq<&BvhNode<T>>, node: &BvhNode<T>)
    ensures
        pending(stack.push(node)) == node.order() + pending(stack),
{
    assert(stack.push(node).drop_last() =~= stack);
}

impl<T> Bvh<T> {
    /// The primitives in the order in which a walk meets them.
    pub open spec fn order(self) -> Seq<(Aabb, T)> {
        match self.spec_root() {
            None => Seq::empty(),
            Some(root) => root.order(),
        }
    }

    /// A walk over the hierarchy meets as many primitives as the hierarchy
    /// counts, and every primitive that was put in exactly once.
    pub proof fn lemma_order_complete(self)
        requires
            self.wf(),
        ensures
            self.order().len() == self.spec_len(),
            self.order().to_multiset() == self.entries(),
    {
        match self.spec_root() {
            None => {
                vstd::seq_lib::to_multiset_len(Seq::<(Aabb, T)>::empty());
                vstd::multiset::lemma_multiset_empty_len(
                    Seq::<(Aabb, T)>::empty().to_multiset(),
                );
            },
            Some(root) => {
                root.lemma_order_complete();
            },
        }
    }

    /// A walk over the primitives.
    pub fn iter(&self) -> (it: Iter<'_, T>)
        requires
            self.wf(),
        ensures
            it.wf(),
            it.remaining() == self.order(),
            it.bound() == self.spec_height(),
            it.spec_depth() <= self.spec_height(),
    {
        let mut stack: Vec<&BvhNode<T>> = Vec::new();
        match self.root() {
            None => {},
            Some(root) => {
                proof {
                    lemma_pending_push(stack@, root);
                }
                stack.push(root);
            },
        }
        Iter { stack }
    }

    /// The primitives, in the order of a walk.
    pub fn children(&self) -> (v: Vec<&T>)
        requires
            self.wf(),
        ensures
            v@.len() == self.order().len(),
            forall|i: int| 0 <= i < v@.len() ==> *v@[i] == self.order()[i].1,
    {
        let mut it = self.iter();
        let mut v: Vec<&T> = Vec::new();
        let ghost all = self.order();
        loop
            invariant
                all == self.order(),
                it.wf(),
                v@.len() + it.remaining().len() == all.len(),
                it.remaining() == all.skip(v@.len() as int),
                forall|i: int| 0 <= i < v@.len() ==> *v@[i] == all[i].1,
            decreases it.remaining().len(),
        {
            match it.next() {
                None => {
                    return v;
                },
                Some(child) => {
                    proof {
                        assert(all.skip(v@.len() as int).drop_first() =~= all.skip(
                            v@.len() as int + 1,
                        ));
                    }
                    v.push(child);
                },
            }
        }
    }
}

/// Every subtree is lower than those that were left before it.
pub open spec fn falling<T>(stack: Seq<&BvhNode<T>>) -> bool {
    forall|i: int, j: int|
        0 <= i < j < stack.len() ==> (#[trigger] stack[i]).spec_height() > (
        #[trigger] stack[j]).spec_height()
}

/// Subtrees of falling height are no more than the first of them has
/// levels.
pub proof fn lemma_falling_len<T>(stack: Seq<&BvhNode<T>>)
    requires
        falling(stack),
        stack.len() > 0,
    ensures
        stack.len() <= stack[0].spec_height() + 1,
    decreases stack.len(),
{
    if stack.len() > 1 {
        let rest = stack.drop_first();
        assert forall|i: int, j: int| 0 <= i < j < rest.len() implies (
        #[trigger] rest[i]).spec_height() > (#[trigger] rest[j]).spec_height() by {
            assert(rest[i] == stack[i + 1]);
            assert(rest[j] == stack[j + 1]);
        }
        lemma_falling_len(rest);
        assert(rest[0] == stack[1]);
        assert(stack[0].spec_height() > stack[1].spec_height());
    }
}

/// A walk over the primitives of a hierarchy.
#[derive(Debug)]
pub struct Iter<'a, T> {
    stack: Vec<&'a BvhNode<T>>,
}

impl<'a, T> Iter<'a, T> {
    /// Every subtree that is left is one in good standing, and lower than
    /// those that were left before it.
    pub closed spec fn wf(self) -> bool {
        &&& forall|i: int| 0 <= i < self.stack@.len() ==> (#[trigger] self.stack@[i]).wf()
        &&& falling(self.stack@)
    }

    /// The number of subtrees that are left for later.
    pub closed spec fn spec_depth(self) -> nat {
        self.stack@.len()
    }

    /// The number of subtrees that are left for later.
    pub fn depth(&self) -> (n: usize)
        ensures
            n == self.spec_depth(),
    {
        self.stack.len()
    }

    /// The number of levels of the subtree that was left first; zero when
    /// none is left.
    pub closed spec fn bound(self) -> nat {
        if self.stack@.len() == 0 {
            0
        } else {
            self.stack@[0].spec_height() + 1
        }
    }

    /// No more subtrees are left for later than the first of them has
    /// levels.
    pub proof fn lemma_depth(self)
        requires
            self.wf(),
        ensures
            self.spec_depth() <= self.bound(),
    {
        if self.stack@.len() > 0 {
            lemma_falling_len(self.stack@);
        }
    }

    /// The primitives that the walk has still to meet, the next one first.
    pub closed spec fn remaining(self) -> Seq<(Aabb, T)> {
        pending(self.stack@)
    }

    /// The next primitive of the walk, or `None` when every one was met.
    pub fn next(&mut self) -> (r: Option<&'a T>)
        requires
            old(self).wf(),
        ensures
            final(self).wf(),
            final(self).spec_depth() <= final(self).bound() <= old(self).bound(),
            old(self).remaining().len() == 0 ==> r is None && final(self).remaining() == old(
                self,
            ).remaining(),
            old(self).remaining().len() > 0 ==> r is Some && *r->0 == old(self).remaining()[0].1
                && final(self).remaining() == old(self).remaining().drop_first(),
    {
        let ghost before = pending(self.stack@);
        let ghost start = self.stack@;
        let top = self.stack.pop();
        let mut node: &'a BvhNode<T> = match top {
            None => {
                return None;
            },
            Some(node) => node,
        };
        proof {
            node.lemma_order_complete();
            let rest = self.stack@;
            assert(rest =~= start.drop_last());
            assert(node == start[start.len() - 1]);
            assert forall|i: int| 0 <= i < rest.len() implies (#[trigger] rest[i]).wf() by {
                assert(rest[i] == start[i]);
            }
            assert forall|i: int, j: int| 0 <= i < j < rest.len() implies (
            #[trigger] rest[i]).spec_height() > (#[trigger] rest[j]).spec_height() by {
                assert(rest[i] == start[i]);
                assert(rest[j] == start[j]);
            }
            if rest.len() > 0 {
                assert(rest[0] == start[0]);
                assert(rest[rest.len() - 1] == start[rest.len() - 1]);
            }
        }
        loop
            invariant
                before == old(self).remaining(),
                node.wf(),
                self.wf(),
                node.order() + pending(self.stack@) == before,
                node.spec_height() + 1 <= old(self).bound(),
                self.bound() <= old(self).bound(),
                self.stack@.len() > 0 ==> self.stack@[self.stack@.len() - 1].spec_height()
                    >= node.spec_height(),
            decreases node.spec_height(),
        {
            match node {
                BvhNode::Parent { left, right, .. } => {
                    proof {
                        node.lemma_unfold();
                    }
                    let (first, second): (&'a BvhNode<T>, &'a BvhNode<T>) = if left.height()
                        < right.height() {
                        (&**left, &**right)
                    } else {
                        (&**right, &**left)
                    };
                    let ghost below = self.stack@;
                    proof {
                        lemma_pending_push(self.stack@, second);
                        assert(first.order() + (second.order() + pending(self.stack@)) =~= (
                        first.order() + second.order()) + pending(self.stack@));
                    }
                    self.stack.push(second);
                    proof {
                        let above = self.stack@;
                        assert(above == below.push(second));
                        assert forall|i: int| 0 <= i < above.len() implies (
                        #[trigger] above[i]).wf() by {
                            if i < below.len() {
                                assert(above[i] == below[i]);
                            }
                        }
                        assert forall|i: int, j: int| 0 <= i < j < above.len() implies (
                        #[trigger] above[i]).spec_height() > (
                        #[trigger] above[j]).spec_height() by {
                            assert(above[i] == below[i]);
                            if j < below.len() {
                                assert(above[j] == below[j]);
                            } else {
                                if i < below.len() - 1 {
                                    assert(below[i].spec_height() > below[below.len()
                                        - 1].spec_height());
                                }
                            }
                        }
                        if below.len() > 0 {
                            assert(above[0] == below[0]);
                        }
                    }
                    node = first;
                },
                BvhNode::Leaf { child, .. } => {
                    proof {
                        assert(node.order().len() == 1);
                        assert(before[0] == node.order()[0]);
                        assert(before.drop_first() =~= pending(self.stack@));
                        self.lemma_depth();
                    }
                    return Some(child);
                },
            }
        }
    }
}

} // verus!
