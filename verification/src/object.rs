//! What the hierarchy holds of a primitive, and the choice of a light.

use crate::bvh::Bvh;
use crate::sampler::below;
use rand::rngs::SmallRng;
use vstd::prelude::*;

verus! {

/// A set of marks on an object, one bit each.
#[derive(Debug, Clone, Copy, PartialEq, Eq, Structural, Hash)]
pub struct ObjectFlags {
    bits: u32,
}

/// The bit of an object that gives off light.
pub const LIGHT_BIT: u32 = 1;

/// The bit of an object that is seen.
pub const VISIBLE_BIT: u32 = 2;

impl ObjectFlags {
    /// The marks as bits.
    pub closed spec fn spec_bits(self) -> u32 {
        self.bits
    }

    /// Whether every mark of `other` is set.
    pub open spec fn spec_contains(self, other: ObjectFlags) -> bool {
        self.spec_bits() & other.spec_bits() == other.spec_bits()
    }

    /// No mark.
    pub fn empty() -> (f: Self)
        ensures
            f.spec_bits() == 0,
    {
        ObjectFlags { bits: 0 }
    }

    /// The mark of an object that gives off light.
    pub fn light() -> (f: Self)
        ensures
            f.spec_bits() == LIGHT_BIT,
    {
        ObjectFlags { bits: LIGHT_BIT }
    }

    /// The mark of an object that is seen.
    pub fn visible() -> (f: Self)
        ensures
            f.spec_bits() == VISIBLE_BIT,
    {
        ObjectFlags { bits: VISIBLE_BIT }
    }

    /// The marks that the bits stand for; a bit that stands for no mark is
    /// dropped.
    pub fn from_bits_truncate(bits: u32) -> (f: Self)
        ensures
            f.spec_bits() == bits & (LIGHT_BIT | VISIBLE_BIT),
    {
        ObjectFlags { bits: bits & (LIGHT_BIT | VISIBLE_BIT) }
    }

    /// The marks as bits.
    pub fn bits(&self) -> (b: u32)
        ensures
            b == self.spec_bits(),
    {
        self.bits
    }

    /// Whether every mark of `other` is set.
    pub fn contains(&self, other: ObjectFlags) -> (b: bool)
        ensures
            b == self.spec_contains(other),
    {
        self.bits & other.bits == other.bits
    }

    /// The marks of both.
    pub fn union(self, other: ObjectFlags) -> (f: Self)
        ensures
            f.spec_bits() == self.spec_bits() | other.spec_bits(),
            f.spec_contains(self),
            f.spec_contains(other),
    {
        let (a, b) = (self.bits, other.bits);
        assert((a | b) & a == a && (a | b) & b == b) by (bit_vector);
        ObjectFlags { bits: self.bits | other.bits }
    }

    /// Sets the marks of `other`.
    pub fn insert(&mut self, other: ObjectFlags)
        ensures
            final(self).spec_bits() == old(self).spec_bits() | other.spec_bits(),
            final(self).spec_contains(*old(self)),
            final(self).spec_contains(other),
    {
        let (a, b) = (self.bits, other.bits);
        assert((a | b) & a == a && (a | b) & b == b) by (bit_vector);
        self.bits = self.bits | other.bits;
    }
}

impl Default for ObjectFlags {
    /// An object is seen and gives off no light unless it is marked
    /// otherwise.
    fn default() -> (f: Self)
        ensures
            f.spec_bits() == VISIBLE_BIT,
    {
        ObjectFlags { bits: VISIBLE_BIT }
    }
}

/// A primitive as the hierarchy holds it: its marks, its tag, and the number
/// of its shape in the scene's table of shapes.
#[derive(Debug, Clone)]
pub struct ObjectData {
    pub flags: ObjectFlags,
    pub tag: Option<String>,
    pub shape: usize,
}

impl ObjectData {
    /// Whether the object gives off light.
    pub open spec fn is_light(self) -> bool {
        self.flags.spec_bits() & LIGHT_BIT == LIGHT_BIT
    }

    /// The marks of the object.
    pub fn flags(&self) -> (f: ObjectFlags)
        ensures
            f == self.flags,
    {
        self.flags
    }

    /// Whether every one of the given marks is set.
    pub fn has_flags(&self, flags: ObjectFlags) -> (b: bool)
        ensures
            b == self.flags.spec_contains(flags),
    {
        self.flags.contains(flags)
    }

    /// The tag of the object, if it has one.
    pub fn tag(&self) -> (t: Option<&String>)
        ensures
            t is Some == self.tag is Some,
            t matches Some(s) ==> *s == self.tag->0,
    {
        self.tag.as_ref()
    }
}

/// The objects among the given ones that give off light, in their order.
pub open spec fn lights_of(objects: Seq<ObjectData>) -> Seq<ObjectData>
    decreases objects.len(),
{
    if objects.len() == 0 {
        Seq::empty()
    } else {
        let rest = lights_of(objects.drop_last());
        if objects.last().is_light() {
            rest.push(objects.last())
        } else {
            rest
        }
    }
}

/// Every light among the objects is one of the objects and gives off light.
pub proof fn lemma_lights_are_lights(objects: Seq<ObjectData>, k: int)
    requires
        0 <= k < lights_of(objects).len(),
    ensures
        lights_of(objects)[k].is_light(),
        objects.contains(lights_of(objects)[k]),
    decreases objects.len(),
{
    if objects.len() > 0 {
        let rest = lights_of(objects.drop_last());
        if k < rest.len() {
            lemma_lights_are_lights(objects.drop_last(), k);
            let i = choose|i: int|
                0 <= i < objects.drop_last().len() && objects.drop_last()[i] == rest[k];
            assert(objects[i] == rest[k]);
        } else {
            assert(objects[objects.len() - 1] == objects.last());
        }
    }
}

impl Bvh<ObjectData> {
    /// The objects of the hierarchy, in the order of a walk.
    pub open spec fn objects(self) -> Seq<ObjectData> {
        Seq::new(self.order().len(), |i: int| self.order()[i].1)
    }

    /// The objects that give off light, in the order of a walk.
    pub fn lights(&self) -> (v: Vec<&ObjectData>)
        requires
            self.wf(),
        ensures
            v@.len() == lights_of(self.objects()).len(),
            forall|k: int| 0 <= k < v@.len() ==> *(#[trigger] v@[k]) == lights_of(self.objects())[k],
    {
        let all = self.children();
        let ghost objects = self.objects();
        let mut v: Vec<&ObjectData> = Vec::new();
        let mut i: usize = 0;
        assert(objects.take(0) =~= Seq::<ObjectData>::empty());
        while i < all.len()
            invariant
                i <= all@.len(),
                all@.len() == objects.len(),
                forall|j: int| 0 <= j < all@.len() ==> *(#[trigger] all@[j]) == objects[j],
                v@.len() == lights_of(objects.take(i as int)).len(),
                forall|k: int|
                    0 <= k < v@.len() ==> *(#[trigger] v@[k]) == lights_of(objects.take(i as int))[k],
            decreases all@.len() - i,
        {
            let object = all[i];
            proof {
                assert(objects.take(i + 1).drop_last() =~= objects.take(i as int));
                assert(objects.take(i + 1).last() == objects[i as int]);
            }
            if object.flags.bits() & LIGHT_BIT == LIGHT_BIT {
                v.push(object);
            }
            i = i + 1;
        }
        assert(objects.take(all@.len() as int) =~= objects);
        v
    }

    /// Draws one of the objects that give off light, every one as likely as
    /// the other; `None` where none gives off light.
    pub fn pick_light(&self, rng: &mut SmallRng) -> (r: Option<(usize, &ObjectData)>)
        requires
            self.wf(),
        ensures
            r is None == (lights_of(self.objects()).len() == 0),
            r matches Some((k, light)) ==> k < lights_of(self.objects()).len() && *light
                == lights_of(self.objects())[k as int] && light.is_light(),
    {
        let lights = self.lights();
        let count = lights.len();
        if count == 0 {
            return None;
        }
        let index = below(rng, count);
        proof {
            lemma_lights_are_lights(self.objects(), index as int);
        }
        Some((index, lights[index]))
    }
}

} // verus!
