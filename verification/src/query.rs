//! The nearest-hit query: a walk over the hierarchy that leaves out every
//! subtree whose box the ray misses, and narrows the clip interval to the
//! nearest hit that was found so far.
//!
//! Whether a ray hits a primitive is for the caller to say. The query hands
//! out the primitives that are worth a test, one at a time; the caller tests
//! the one it was handed and reports a hit with its ray parameter.

use crate::bvh::{Bvh, BvhNode};
use crate::geometry::{lemma_hit_monotonic, lemma_union_grows, Aabb, Clip, Ray};
use vstd::multiset::Multiset;
use vstd::prelude::*;

verus! {

broadcast use vstd::multiset::group_multiset_axioms;

/// One of the subtrees holds the entry.
pub open spec fn under<T>(stack: Seq<&BvhNode<T>>, e: (Aabb, T)) -> bool {
    exists|i: int| 0 <= i < stack.len() && (#[trigger] stack[i]).entries().count(e) > 0
}

/// The number of nodes in the subtrees.
pub open spec fn weight<T>(stack: Seq<&BvhNode<T>>) -> nat
    decreases stack.len(),
{
    if stack.len() == 0 {
        0
    } else {
        (2 * stack.last().count() - 1) as nat + weight(stack.drop_last())
    }
}

proof fn lemma_weight_push<T>(stack: Seq<&BvhNode<T>>, node: &BvhNode<T>)
    ensures
        weight(stack.push(node)) == (2 * node.count() - 1) as nat + weight(stack),
{
    assert(stack.push(node).drop_last() =~= stack);
}

proof fn lemma_under_drop<T>(stack: Seq<&BvhNode<T>>, e: (Aabb, T))
    requires
        under(stack, e),
    ensures
        stack.len() > 0,
        under(stack.drop_last(), e) || stack.last().entries().count(e) > 0,
{
    let i = choose|i: int| 0 <= i < stack.len() && (#[trigger] stack[i]).entries().count(e) > 0;
    if i < stack.len() - 1 {
        assert(stack.drop_last()[i] == stack[i]);
    }
}

proof fn lemma_under_push<T>(stack: Seq<&BvhNode<T>>, node: &BvhNode<T>, e: (Aabb, T))
    requires
        under(stack, e) || node.entries().count(e) > 0,
    ensures
        under(stack.push(node), e),
{
    if under(stack, e) {
        let i = choose|i: int| 0 <= i < stack.len() && (#[trigger] stack[i]).entries().count(e) > 0;
        assert(stack.push(node)[i] == stack[i]);
    } else {
        assert(stack.push(node)[stack.len() as int] == node);
    }
}

/// The walk from a stack of subtrees, the last of them first, to the next
/// primitive that is worth a test: a subtree whose box the ray misses within
/// the clip interval is left out, in place of a parent that is hit come its
/// two subtrees, the left one first, and a leaf that is hit is the primitive
/// that was looked for. The result is the stack that is left, and the
/// primitive with its box, or none when the stack has run out.
pub open spec fn walk<T>(stack: Seq<&BvhNode<T>>, ray: Ray, clip: Clip) -> (
    Seq<&BvhNode<T>>,
    Option<(Aabb, T)>,
)
    decreases weight(stack),
    via walk_terminates::<T>
{
    if stack.len() == 0 {
        (stack, None)
    } else {
        let node = stack.last();
        let rest = stack.drop_last();
        if !node.spec_aabb().spec_hit(ray, clip) {
            walk(rest, ray, clip)
        } else {
            match *node {
                BvhNode::Leaf { aabb, child } => (rest, Some((aabb, child))),
                BvhNode::Parent { left, right, .. } => walk(
                    rest.push(&*right).push(&*left),
                    ray,
                    clip,
                ),
            }
        }
    }
}

#[via_fn]
proof fn walk_terminates<T>(stack: Seq<&BvhNode<T>>, ray: Ray, clip: Clip) {
    if stack.len() > 0 {
        let node = stack.last();
        let rest = stack.drop_last();
        node.lemma_count_positive();
        match *node {
            BvhNode::Leaf { .. } => {},
            BvhNode::Parent { left, right, .. } => {
                left.lemma_count_positive();
                right.lemma_count_positive();
                lemma_weight_push(rest, &*right);
                lemma_weight_push(rest.push(&*right), &*left);
            },
        }
    }
}

impl<T> BvhNode<T> {
    /// There is a leaf below every node.
    pub proof fn lemma_count_positive(self)
        ensures
            self.count() >= 1,
        decreases self,
    {
        match self {
            BvhNode::Leaf { .. } => {},
            BvhNode::Parent { left, right, .. } => {
                left.lemma_count_positive();
                right.lemma_count_positive();
            },
        }
    }

    /// The box of a node holds the box of every primitive below it.
    pub proof fn lemma_entries_within(self)
        requires
            self.wf(),
        ensures
            forall|e: (Aabb, T)|
                self.entries().count(e) > 0 ==> (#[trigger] e.0.within(self.spec_aabb())),
        decreases self,
    {
        assert forall|e: (Aabb, T)| self.entries().count(e) > 0 implies (#[trigger] e.0.within(
            self.spec_aabb(),
        )) by {
            match self {
                BvhNode::Leaf { aabb, child } => {
                    assert(Multiset::singleton((aabb, child)).count(e) > 0);
                    assert(e == (aabb, child));
                },
                BvhNode::Parent { left, right, .. } => {
                    left.lemma_entries_within();
                    right.lemma_entries_within();
                    lemma_union_grows(left.spec_aabb(), right.spec_aabb());
                    assert(left.entries().count(e) > 0 || right.entries().count(e) > 0);
                    if left.entries().count(e) > 0 {
                        assert(e.0.within(left.spec_aabb()));
                    } else {
                        assert(e.0.within(right.spec_aabb()));
                    }
                },
            }
        }
    }
}

/// A nearest-hit query in progress.
#[verifier::reject_recursive_types(T)]
pub struct HitQuery<'a, T> {
    stack: Vec<&'a BvhNode<T>>,
    ray: Ray,
    clip: Clip,
    current: Option<&'a T>,
    best: Option<(&'a T, i32)>,
    universe: Ghost<Multiset<(Aabb, T)>>,
    offered: Ghost<Set<(Aabb, T)>>,
    reports: Ghost<Seq<(T, int)>>,
}

impl<'a, T> HitQuery<'a, T> {
    /// The ray of the query.
    pub closed spec fn spec_ray(self) -> Ray {
        self.ray
    }

    /// The clip interval as the hits reported so far have narrowed it.
    pub closed spec fn spec_clip(self) -> Clip {
        self.clip
    }

    /// The primitives of the hierarchy that is searched.
    pub closed spec fn universe(self) -> Multiset<(Aabb, T)> {
        self.universe@
    }

    /// The primitives that were handed out for a test.
    pub closed spec fn offered(self) -> Set<(Aabb, T)> {
        self.offered@
    }

    /// The hits that were accepted, each with its primitive, in their order.
    pub closed spec fn reports(self) -> Seq<(T, int)> {
        self.reports@
    }

    /// The primitive that was handed out last and awaits its report.
    pub closed spec fn spec_current(self) -> Option<T> {
        match self.current {
            None => None,
            Some(c) => Some(*c),
        }
    }

    /// The nearest hit so far.
    pub closed spec fn spec_best(self) -> Option<(T, int)> {
        match self.best {
            None => None,
            Some((c, t)) => Some((*c, t as int)),
        }
    }

    /// The subtrees that are left to look into, the next one last.
    pub closed spec fn stack(self) -> Seq<&'a BvhNode<T>> {
        self.stack@
    }

    /// No subtree is left to look into.
    pub open spec fn finished(self) -> bool {
        self.stack().len() == 0
    }

    /// Every primitive of the hierarchy was handed out, or its box is
    /// missed by the ray within the clip interval as it stands.
    pub open spec fn exhaustive(self) -> bool {
        forall|e: (Aabb, T)| #[trigger]
            self.universe().count(e) > 0 ==> self.offered().contains(e) || !e.0.spec_hit(
                self.spec_ray(),
                self.spec_clip(),
            )
    }

    /// The nearest hit so far is the last report, no other report is
    /// nearer, and the clip interval ends at it.
    pub open spec fn best_is_nearest(self) -> bool {
        match self.spec_best() {
            None => self.reports().len() == 0,
            Some((c, t)) => {
                &&& self.reports().len() > 0
                &&& self.reports().last() == (c, t)
                &&& self.spec_clip().max == t
                &&& forall|i: int| 0 <= i < self.reports().len() ==> t <= (#[trigger] self.reports()[i]).1
            },
        }
    }

    /// The primitive `child` with the box `aabb` is one of the hierarchy,
    /// the ray hits its box within the clip interval, and it is what was
    /// handed out since the state `before`.
    pub open spec fn hands_out(self, before: Self, aabb: Aabb, child: T) -> bool {
        &&& self.universe().count((aabb, child)) > 0
        &&& aabb.spec_hit(self.spec_ray(), self.spec_clip())
        &&& self.offered() == before.offered().insert((aabb, child))
    }

    /// The state is one that the query's own steps lead to.
    pub closed spec fn wf(self) -> bool {
        &&& forall|i: int| 0 <= i < self.stack@.len() ==> (#[trigger] self.stack@[i]).wf()
        &&& forall|i: int, e: (Aabb, T)|
            0 <= i < self.stack@.len() && (#[trigger] self.stack@[i].entries().count(e)) > 0
                ==> self.universe@.count(e) > 0
        &&& forall|e: (Aabb, T)| #[trigger]
            self.universe@.count(e) > 0 ==> self.offered@.contains(e) || under(self.stack@, e)
                || !e.0.spec_hit(self.ray, self.clip)
        &&& self.best_is_nearest()
    }

    /// A state in good standing in which nothing is left to look into is
    /// exhaustive, and its nearest hit is the nearest of all reports.
    pub proof fn lemma_finished(self)
        requires
            self.wf(),
            self.finished(),
        ensures
            self.exhaustive(),
            self.best_is_nearest(),
    {
    }

    /// When nothing is left to look into, a primitive that was not handed
    /// out has a box that the ray is inside at no parameter of the clip
    /// interval, which ends at the nearest hit: nothing that was left out
    /// can hold a hit that is nearer.
    pub proof fn lemma_nothing_nearer(self, e: (Aabb, T), p: int, q: int)
        requires
            self.wf(),
            self.finished(),
            self.universe().count(e) > 0,
            !self.offered().contains(e),
        ensures
            !e.0.inside_at(self.spec_ray(), self.spec_clip(), p, q),
    {
        e.0.lemma_hit_is_inside(self.spec_ray(), self.spec_clip());
    }

    fn start(root: Option<&'a BvhNode<T>>, ray: &Ray, clip: &Clip) -> (q: Self)
        requires
            root matches Some(node) ==> node.wf(),
        ensures
            q.wf(),
            q.spec_ray() == *ray,
            q.spec_clip() == *clip,
            q.stack() == match root {
                None => Seq::<&BvhNode<T>>::empty(),
                Some(node) => seq![node],
            },
            q.universe() == match root {
                None => Multiset::<(Aabb, T)>::empty(),
                Some(node) => node.entries(),
            },
            q.offered() == Set::<(Aabb, T)>::empty(),
            q.reports() == Seq::<(T, int)>::empty(),
            q.spec_current() is None,
            q.spec_best() is None,
    {
        let mut stack: Vec<&'a BvhNode<T>> = Vec::new();
        let ghost universe = Multiset::<(Aabb, T)>::empty();
        match root {
            None => {},
            Some(node) => {
                stack.push(node);
                proof {
                    universe = node.entries();
                    assert(stack@ =~= seq![node]);
                }
            },
        }
        let q = HitQuery {
            stack,
            ray: *ray,
            clip: *clip,
            current: None,
            best: None,
            universe: Ghost(universe),
            offered: Ghost(Set::empty()),
            reports: Ghost(Seq::empty()),
        };
        proof {
            assert forall|e: (Aabb, T)| #[trigger] q.universe@.count(e) > 0 implies under(
                q.stack@,
                e,
            ) by {
                assert(q.stack@[0].entries().count(e) > 0);
            }
        }
        q
    }

    /// The next primitive that is worth a test: one whose box, like the box
    /// of every subtree around it, the ray hits within the clip interval as
    /// it stands. `None` when nothing is left to look into.
    pub fn next(&mut self) -> (r: Option<&'a T>)
        requires
            old(self).wf(),
        ensures
            final(self).wf(),
            final(self).spec_ray() == old(self).spec_ray(),
            final(self).spec_clip() == old(self).spec_clip(),
            final(self).universe() == old(self).universe(),
            final(self).reports() == old(self).reports(),
            final(self).spec_best() == old(self).spec_best(),
            final(self).stack() == walk(old(self).stack(), old(self).spec_ray(), old(self).spec_clip()).0,
            r is Some == walk(old(self).stack(), old(self).spec_ray(), old(self).spec_clip()).1 is Some,
            r is Some == final(self).spec_current() is Some,
            r matches Some(c) ==> {
                let found = walk(
                    old(self).stack(),
                    old(self).spec_ray(),
                    old(self).spec_clip(),
                ).1->0;
                &&& *c == found.1
                &&& final(self).spec_current() == Some(*c)
                &&& final(self).hands_out(*old(self), found.0, *c)
            },
            r is None ==> final(self).offered() == old(self).offered() && final(self).finished()
                && final(self).exhaustive(),
    {
        self.current = None;
        loop
            invariant
                self.wf(),
                self.ray == old(self).ray,
                self.clip == old(self).clip,
                self.universe@ == old(self).universe@,
                self.offered@ == old(self).offered@,
                self.reports@ == old(self).reports@,
                self.best == old(self).best,
                self.current is None,
                walk(self.stack@, self.ray, self.clip) == walk(
                    old(self).stack@,
                    old(self).ray,
                    old(self).clip,
                ),
            decreases weight(self.stack@),
        {
            let ghost before = self.stack@;
            let node: &'a BvhNode<T> = match self.stack.pop() {
                None => {
                    return None;
                },
                Some(node) => node,
            };
            let ghost rest = self.stack@;
            proof {
                assert(rest =~= before.drop_last());
                assert(node == before.last());
                node.lemma_count_positive();
                node.lemma_entries_within();
                assert forall|i: int, e: (Aabb, T)|
                    0 <= i < rest.len() && (#[trigger] rest[i].entries().count(e)) > 0 implies
                    self.universe@.count(e) > 0 by {
                    assert(rest[i] == before[i]);
                }
                assert forall|i: int| 0 <= i < rest.len() implies (#[trigger] rest[i]).wf() by {
                    assert(rest[i] == before[i]);
                }
                assert(node.wf());
            }
            if !node.aabb().hit(&self.ray, &self.clip) {
                proof {
                    assert forall|e: (Aabb, T)| #[trigger]
                        self.universe@.count(e) > 0 implies self.offered@.contains(e) || under(
                        rest,
                        e,
                    ) || !e.0.spec_hit(self.ray, self.clip) by {
                        if under(before, e) {
                            lemma_under_drop(before, e);
                            if node.entries().count(e) > 0 && e.0.spec_hit(self.ray, self.clip) {
                                assert(e.0.within(node.spec_aabb()));
                                lemma_hit_monotonic(
                                    e.0,
                                    node.spec_aabb(),
                                    self.ray,
                                    self.clip,
                                    self.clip,
                                );
                            }
                        }
                    }
                }
            } else {
                match node {
                    BvhNode::Parent { left, right, .. } => {
                        let (l, r): (&'a BvhNode<T>, &'a BvhNode<T>) = (&**left, &**right);
                        proof {
                            node.lemma_unfold();
                            l.lemma_count_positive();
                            r.lemma_count_positive();
                            lemma_weight_push(rest, r);
                            lemma_weight_push(rest.push(r), l);
                        }
                        self.stack.push(r);
                        self.stack.push(l);
                        proof {
                            let after = self.stack@;
                            assert(after == rest.push(r).push(l));
                            assert(walk(before, self.ray, self.clip) == walk(
                                after,
                                self.ray,
                                self.clip,
                            ));
                            assert forall|i: int| 0 <= i < after.len() implies (
                            #[trigger] after[i]).wf() by {
                                if i < rest.len() {
                                    assert(after[i] == rest[i]);
                                }
                            }
                            assert forall|i: int, e: (Aabb, T)|
                                0 <= i < after.len() && (#[trigger] after[i].entries().count(e))
                                    > 0 implies self.universe@.count(e) > 0 by {
                                if i < rest.len() {
                                    assert(after[i] == rest[i]);
                                } else {
                                    assert(node.entries().count(e) > 0);
                                    assert(before[before.len() - 1].entries().count(e) > 0);
                                }
                            }
                            assert forall|e: (Aabb, T)| #[trigger]
                                self.universe@.count(e) > 0 implies self.offered@.contains(e)
                                || under(after, e) || !e.0.spec_hit(self.ray, self.clip) by {
                                if under(before, e) {
                                    lemma_under_drop(before, e);
                                    if under(rest, e) {
                                        lemma_under_push(rest, r, e);
                                        lemma_under_push(rest.push(r), l, e);
                                    } else if r.entries().count(e) > 0 {
                                        lemma_under_push(rest, r, e);
                                        lemma_under_push(rest.push(r), l, e);
                                    } else {
                                        assert(l.entries().count(e) > 0);
                                        lemma_under_push(rest.push(r), l, e);
                                    }
                                }
                            }
                        }
                    },
                    BvhNode::Leaf { aabb, child } => {
                        let ghost entry = (*aabb, *child);
                        self.offered = Ghost(self.offered@.insert(entry));
                        self.current = Some(child);
                        proof {
                            assert(node.entries() == Multiset::singleton(entry));
                            assert(before[before.len() - 1].entries().count(entry) > 0);
                            assert(self.universe@.count(entry) > 0);
                            assert forall|e: (Aabb, T)| #[trigger]
                                self.universe@.count(e) > 0 implies self.offered@.contains(e)
                                || under(rest, e) || !e.0.spec_hit(self.ray, self.clip) by {
                                if under(before, e) {
                                    lemma_under_drop(before, e);
                                    if !under(rest, e) {
                                        assert(Multiset::singleton(entry).count(e) > 0);
                                        assert(e == entry);
                                    }
                                }
                            }
                            assert(walk(before, self.ray, self.clip) == (rest, Some(entry)));
                            assert(self.hands_out(*old(self), *aabb, *child));
                        }
                        return Some(child);
                    },
                }
            }
        }
    }

    /// Reports that the ray hits the primitive that was handed out last at
    /// the parameter `t`. The hit counts where `t` lies in the clip interval
    /// as it stands, its ends included; it is then the nearest so far, and
    /// the clip interval ends at it.
    pub fn accept(&mut self, t: i32) -> (accepted: bool)
        requires
            old(self).wf(),
        ensures
            final(self).wf(),
            final(self).spec_ray() == old(self).spec_ray(),
            final(self).universe() == old(self).universe(),
            final(self).offered() == old(self).offered(),
            final(self).stack() == old(self).stack(),
            final(self).spec_current() is None,
            accepted == (old(self).spec_current() is Some && old(self).spec_clip().min <= t
                <= old(self).spec_clip().max),
            accepted ==> {
                &&& final(self).spec_clip() == (Clip { min: old(self).spec_clip().min, max: t })
                &&& final(self).spec_best() == Some((old(self).spec_current()->0, t as int))
                &&& final(self).reports() == old(self).reports().push(
                    (old(self).spec_current()->0, t as int),
                )
            },
            !accepted ==> {
                &&& final(self).spec_clip() == old(self).spec_clip()
                &&& final(self).spec_best() == old(self).spec_best()
                &&& final(self).reports() == old(self).reports()
            },
    {
        let current = self.current;
        self.current = None;
        match current {
            None => false,
            Some(child) => {
                if self.clip.min <= t && t <= self.clip.max {
                    let ghost narrow = Clip { min: self.clip.min, max: t };
                    proof {
                        assert forall|e: (Aabb, T)| #[trigger]
                            self.universe@.count(e) > 0 implies self.offered@.contains(e)
                            || under(self.stack@, e) || !e.0.spec_hit(self.ray, narrow) by {
                            if e.0.spec_hit(self.ray, narrow) {
                                lemma_hit_monotonic(e.0, e.0, self.ray, narrow, self.clip);
                            }
                        }
                    }
                    self.clip = Clip { min: self.clip.min, max: t };
                    self.best = Some((child, t));
                    self.reports = Ghost(self.reports@.push((*child, t as int)));
                    true
                } else {
                    false
                }
            },
        }
    }

    /// The ray of the query.
    pub fn ray(&self) -> (r: Ray)
        ensures
            r == self.spec_ray(),
    {
        self.ray
    }

    /// The clip interval to test the next primitive with.
    pub fn clip(&self) -> (c: Clip)
        ensures
            c == self.spec_clip(),
    {
        self.clip
    }

    /// The nearest hit so far: the primitive and the ray parameter.
    pub fn best(&self) -> (r: Option<(&'a T, i32)>)
        requires
            self.wf(),
        ensures
            r is Some == self.spec_best() is Some,
            r matches Some((c, t)) ==> self.spec_best() == Some((*c, t as int)),
            self.best_is_nearest(),
    {
        self.best
    }
}

impl<T> BvhNode<T> {
    /// Starts a nearest-hit query on the subtree.
    pub fn hit<'a>(&'a self, ray: &Ray, clip: &Clip) -> (q: HitQuery<'a, T>)
        requires
            self.wf(),
        ensures
            q.wf(),
            q.spec_ray() == *ray,
            q.spec_clip() == *clip,
            q.stack() == seq![self],
            q.universe() == self.entries(),
            q.offered() == Set::<(Aabb, T)>::empty(),
            q.reports() == Seq::<(T, int)>::empty(),
            q.spec_current() is None,
            q.spec_best() is None,
    {
        HitQuery::start(Some(self), ray, clip)
    }
}

impl<T> Bvh<T> {
    /// Starts a nearest-hit query on the hierarchy.
    pub fn hit<'a>(&'a self, ray: &Ray, clip: &Clip) -> (q: HitQuery<'a, T>)
        requires
            self.wf(),
        ensures
            q.wf(),
            q.spec_ray() == *ray,
            q.spec_clip() == *clip,
            q.stack().len() == if self.spec_root() is Some { 1nat } else { 0nat },
            self.spec_root() matches Some(root) ==> *q.stack()[0] == root,
            q.universe() == self.entries(),
            q.offered() == Set::<(Aabb, T)>::empty(),
            q.reports() == Seq::<(T, int)>::empty(),
            q.spec_current() is None,
            q.spec_best() is None,
    {
        HitQuery::start(self.root(), ray, clip)
    }
}

} // verus!
