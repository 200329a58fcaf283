//! Axis-aligned boxes, rays and clip intervals on an integer lattice.
//!
//! Coordinates are fixed-point numbers held in an `i32`; the unit is the
//! caller's choice. Everything here is exact: extents are widened before they
//! are subtracted or multiplied, and ray parameters are compared as fractions.

use vstd::prelude::*;

verus! {

/// The number of lattice steps that the defaults of this crate take for one
/// unit of length.
pub const UNIT: i32 = 1024;

/// A point, or a displacement, on the lattice.
#[derive(Debug, Clone, Copy, PartialEq, Eq, Structural)]
pub struct Point3 {
    pub x: i32,
    pub y: i32,
    pub z: i32,
}

/// The edge lengths of a box. A component is negative where the box is
/// inverted along that axis.
#[derive(Debug, Clone, Copy, PartialEq, Eq, Structural)]
pub struct Extent3 {
    pub x: i64,
    pub y: i64,
    pub z: i64,
}

/// A ray `origin + t * direction`, with `t` ranging over the rationals.
#[derive(Debug, Clone, Copy, PartialEq, Eq, Structural)]
pub struct Ray {
    pub origin: Point3,
    pub direction: Point3,
}

/// The open interval of ray parameters in which an intersection counts.
#[derive(Debug, Clone, Copy, PartialEq, Eq, Structural)]
pub struct Clip {
    pub min: i32,
    pub max: i32,
}

/// An axis-aligned box. A box in good standing has `min < max` on every
/// axis; the intersection of two boxes that do not meet is an inverted box,
/// whose volume counts as zero.
#[derive(Debug, Clone, Copy, PartialEq, Eq, Structural)]
pub struct Aabb {
    pub min: Point3,
    pub max: Point3,
}

pub open spec fn min_int(a: int, b: int) -> int {
    if a <= b { a } else { b }
}

pub open spec fn max_int(a: int, b: int) -> int {
    if a >= b { a } else { b }
}

/// An edge length as it enters a volume: an inverted edge counts for nothing.
pub open spec fn edge(lo: int, hi: int) -> int {
    if hi > lo { hi - lo } else { 0 }
}

impl Point3 {
    pub fn new(x: i32, y: i32, z: i32) -> (p: Self)
        ensures
            p == (Point3 { x, y, z }),
    {
        Point3 { x, y, z }
    }

    /// Componentwise `<`.
    pub open spec fn all_lt(self, other: Point3) -> bool {
        self.x < other.x && self.y < other.y && self.z < other.z
    }

    /// Componentwise `<=`.
    pub open spec fn all_le(self, other: Point3) -> bool {
        self.x <= other.x && self.y <= other.y && self.z <= other.z
    }

    /// Componentwise minimum.
    pub open spec fn spec_min(self, other: Point3) -> Point3 {
        Point3 {
            x: if self.x <= other.x { self.x } else { other.x },
            y: if self.y <= other.y { self.y } else { other.y },
            z: if self.z <= other.z { self.z } else { other.z },
        }
    }

    /// Componentwise maximum.
    pub open spec fn spec_max(self, other: Point3) -> Point3 {
        Point3 {
            x: if self.x >= other.x { self.x } else { other.x },
            y: if self.y >= other.y { self.y } else { other.y },
            z: if self.z >= other.z { self.z } else { other.z },
        }
    }

    /// Componentwise minimum.
    pub fn min(self, other: Point3) -> (p: Point3)
        ensures
            p == self.spec_min(other),
    {
        Point3 {
            x: if self.x <= other.x { self.x } else { other.x },
            y: if self.y <= other.y { self.y } else { other.y },
            z: if self.z <= other.z { self.z } else { other.z },
        }
    }

    /// Componentwise maximum.
    pub fn max(self, other: Point3) -> (p: Point3)
        ensures
            p == self.spec_max(other),
    {
        Point3 {
            x: if self.x >= other.x { self.x } else { other.x },
            y: if self.y >= other.y { self.y } else { other.y },
            z: if self.z >= other.z { self.z } else { other.z },
        }
    }
}

impl Aabb {
    /// Whether the box has a positive extent on every axis.
    pub open spec fn wf(self) -> bool {
        self.min.all_lt(self.max)
    }

    /// Whether `self` lies inside `other`, borders included.
    pub open spec fn within(self, other: Aabb) -> bool {
        other.min.all_le(self.min) && self.max.all_le(other.max)
    }

    pub open spec fn spec_size(self) -> Extent3 {
        Extent3 {
            x: (self.max.x - self.min.x) as i64,
            y: (self.max.y - self.min.y) as i64,
            z: (self.max.z - self.min.z) as i64,
        }
    }

    /// The volume enclosed: the product of the three edge lengths, zero for
    /// a box that is inverted along some axis.
    pub open spec fn spec_area(self) -> int {
        edge(self.min.x as int, self.max.x as int) * edge(self.min.y as int, self.max.y as int)
            * edge(self.min.z as int, self.max.z as int)
    }

    pub open spec fn spec_union(self, other: Aabb) -> Aabb {
        Aabb { min: self.min.spec_min(other.min), max: self.max.spec_max(other.max) }
    }

    pub open spec fn spec_intersection(self, other: Aabb) -> Aabb {
        Aabb { min: self.min.spec_max(other.min), max: self.max.spec_min(other.max) }
    }

    pub open spec fn spec_overlap(self, other: Aabb) -> int {
        self.spec_intersection(other).spec_area()
    }

    /// The box with the given corners.
    pub fn new(min: Point3, max: Point3) -> (b: Self)
        requires
            min.all_lt(max),
        ensures
            b.min == min,
            b.max == max,
            b.wf(),
    {
        Aabb { min, max }
    }

    /// The edge lengths, negative where the box is inverted.
    pub fn size(&self) -> (s: Extent3)
        ensures
            s == self.spec_size(),
            s.x == self.max.x - self.min.x,
            s.y == self.max.y - self.min.y,
            s.z == self.max.z - self.min.z,
    {
        Extent3 {
            x: self.max.x as i64 - self.min.x as i64,
            y: self.max.y as i64 - self.min.y as i64,
            z: self.max.z as i64 - self.min.z as i64,
        }
    }

    /// The volume enclosed.
    pub fn area(&self) -> (a: u128)
        ensures
            a == self.spec_area(),
    {
        let s = self.size();
        let dx: u128 = if s.x > 0 { s.x as u128 } else { 0 };
        let dy: u128 = if s.y > 0 { s.y as u128 } else { 0 };
        let dz: u128 = if s.z > 0 { s.z as u128 } else { 0 };
        proof {
            lemma_mul_bound(dx as int, dy as int, 0x1_0000_0000, 0x1_0000_0000);
            lemma_mul_bound((dx * dy) as int, dz as int, 0x1_0000_0000_0000_0000, 0x1_0000_0000);
        }
        dx * dy * dz
    }

    /// The smallest box that holds both.
    pub fn union(&self, other: &Self) -> (u: Self)
        ensures
            u == self.spec_union(*other),
    {
        Aabb { min: self.min.min(other.min), max: self.max.max(other.max) }
    }

    /// The part common to both; inverted where the two do not meet.
    pub fn intersection(&self, other: &Self) -> (i: Self)
        ensures
            i == self.spec_intersection(*other),
    {
        Aabb { min: self.min.max(other.min), max: self.max.min(other.max) }
    }

    /// The volume common to both.
    pub fn overlap(&self, other: &Self) -> (a: u128)
        ensures
            a == self.spec_overlap(*other),
    {
        self.intersection(other).area()
    }

    /// Whether the two share a volume.
    pub fn overlaps(&self, other: &Self) -> (b: bool)
        ensures
            b == (self.spec_overlap(*other) > 0),
    {
        self.overlap(other) > 0
    }
}

/// A ray parameter as a fraction with a positive denominator.
#[derive(Clone, Copy)]
pub struct Frac {
    pub num: i64,
    pub den: i64,
}

impl Frac {
    /// The denominator is positive, and both parts are small enough for a
    /// cross product to be exact.
    pub open spec fn wf(self) -> bool {
        &&& 0 < self.den <= 0x8000_0000
        &&& -0x1_0000_0000 < self.num < 0x1_0000_0000
    }

    /// `self < other` as rationals.
    pub open spec fn lt(self, other: Frac) -> bool {
        self.num * other.den < other.num * self.den
    }

    /// `self <= other` as rationals.
    pub open spec fn le(self, other: Frac) -> bool {
        self.num * other.den <= other.num * self.den
    }

    fn less(self, other: Frac) -> (b: bool)
        requires
            self.wf(),
            other.wf(),
        ensures
            b == self.lt(other),
    {
        proof {
            lemma_cross_bound(self.num as int, other.den as int);
            lemma_cross_bound(other.num as int, self.den as int);
        }
        (self.num as i128) * (other.den as i128) < (other.num as i128) * (self.den as i128)
    }
}

proof fn lemma_cross_bound(n: int, d: int)
    requires
        -0x1_0000_0000 < n < 0x1_0000_0000,
        0 < d <= 0x8000_0000,
    ensures
        -0x8000_0000_0000_0000_0000 < n * d < 0x8000_0000_0000_0000_0000,
{
    assert(-0x8000_0000_0000_0000_0000 < n * d < 0x8000_0000_0000_0000_0000) by (nonlinear_arith)
        requires
            -0x1_0000_0000 < n < 0x1_0000_0000,
            0 < d <= 0x8000_0000,
    ;
}

/// `a <= b < c` gives `a < c`.
proof fn lemma_le_lt(a: Frac, b: Frac, c: Frac)
    requires
        a.den > 0,
        b.den > 0,
        c.den > 0,
        a.le(b),
        b.lt(c),
    ensures
        a.lt(c),
{
    lemma_ratio_le_lt(
        a.num as int,
        a.den as int,
        b.num as int,
        b.den as int,
        c.num as int,
        c.den as int,
    );
}

/// `a < b <= c` gives `a < c`.
proof fn lemma_lt_le(a: Frac, b: Frac, c: Frac)
    requires
        a.den > 0,
        b.den > 0,
        c.den > 0,
        a.lt(b),
        b.le(c),
    ensures
        a.lt(c),
{
    lemma_ratio_lt_le(
        a.num as int,
        a.den as int,
        b.num as int,
        b.den as int,
        c.num as int,
        c.den as int,
    );
}

/// Where a ray that moves along an axis enters the slab `lo..hi`.
pub open spec fn slab_entry(lo: int, hi: int, o: int, d: int) -> Frac
    recommends
        d != 0,
{
    if d > 0 {
        Frac { num: (lo - o) as i64, den: d as i64 }
    } else {
        Frac { num: (o - hi) as i64, den: (-d) as i64 }
    }
}

/// Where a ray that moves along an axis leaves the slab `lo..hi`.
pub open spec fn slab_exit(lo: int, hi: int, o: int, d: int) -> Frac
    recommends
        d != 0,
{
    if d > 0 {
        Frac { num: (hi - o) as i64, den: d as i64 }
    } else {
        Frac { num: (o - lo) as i64, den: (-d) as i64 }
    }
}

/// One axis of a box as a ray sees it.
pub struct Slab {
    pub lo: int,
    pub hi: int,
    pub o: int,
    pub d: int,
}

impl Slab {
    /// A ray that does not move along the axis stays in the slab or never
    /// enters it.
    pub open spec fn admits(self) -> bool {
        self.d == 0 ==> self.lo <= self.o <= self.hi
    }

    /// Every parameter from `t` on is past the entry into the slab.
    pub open spec fn entered_by(self, t: Frac) -> bool {
        self.d != 0 ==> slab_entry(self.lo, self.hi, self.o, self.d).le(t)
    }

    /// Every parameter up to `t` is before the exit from the slab.
    pub open spec fn not_left_by(self, t: Frac) -> bool {
        self.d != 0 ==> t.le(slab_exit(self.lo, self.hi, self.o, self.d))
    }

    /// The entry comes before the given parameter.
    pub open spec fn enters_before(self, t: Frac) -> bool {
        self.d != 0 ==> slab_entry(self.lo, self.hi, self.o, self.d).lt(t)
    }

    /// The exit comes after the given parameter.
    pub open spec fn leaves_after(self, t: Frac) -> bool {
        self.d != 0 ==> t.lt(slab_exit(self.lo, self.hi, self.o, self.d))
    }

    /// The entry into `self` comes before the exit from `other`.
    pub open spec fn enters_before_exit_of(self, other: Slab) -> bool {
        self.d != 0 ==> other.leaves_after(slab_entry(self.lo, self.hi, self.o, self.d))
    }
}

impl Aabb {
    pub open spec fn slab_x(self, ray: Ray) -> Slab {
        Slab {
            lo: self.min.x as int,
            hi: self.max.x as int,
            o: ray.origin.x as int,
            d: ray.direction.x as int,
        }
    }

    pub open spec fn slab_y(self, ray: Ray) -> Slab {
        Slab {
            lo: self.min.y as int,
            hi: self.max.y as int,
            o: ray.origin.y as int,
            d: ray.direction.y as int,
        }
    }

    pub open spec fn slab_z(self, ray: Ray) -> Slab {
        Slab {
            lo: self.min.z as int,
            hi: self.max.z as int,
            o: ray.origin.z as int,
            d: ray.direction.z as int,
        }
    }

    /// Whether the ray is inside the box for some parameter of the clip
    /// interval: on no axis does the ray stay outside, and every entry (into
    /// a slab, or the lower end of the clip interval) comes strictly before
    /// every exit (from a slab, or the upper end of the clip interval).
    pub open spec fn spec_hit(self, ray: Ray, clip: Clip) -> bool {
        let (sx, sy, sz) = (self.slab_x(ray), self.slab_y(ray), self.slab_z(ray));
        let t_min = Frac { num: clip.min as i64, den: 1 };
        let t_max = Frac { num: clip.max as i64, den: 1 };
        &&& sx.admits() && sy.admits() && sz.admits()
        &&& clip.min < clip.max
        &&& sx.leaves_after(t_min) && sy.leaves_after(t_min) && sz.leaves_after(t_min)
        &&& sx.enters_before(t_max) && sy.enters_before(t_max) && sz.enters_before(t_max)
        &&& sx.enters_before_exit_of(sx) && sx.enters_before_exit_of(sy)
            && sx.enters_before_exit_of(sz)
        &&& sy.enters_before_exit_of(sx) && sy.enters_before_exit_of(sy)
            && sy.enters_before_exit_of(sz)
        &&& sz.enters_before_exit_of(sx) && sz.enters_before_exit_of(sy)
            && sz.enters_before_exit_of(sz)
    }
}

/// The window of ray parameters `lo..hi`, cut down to the part in which the
/// ray is inside the slab; `None` where nothing is left.
pub open spec fn narrowed(s: Slab, lo: Frac, hi: Frac) -> Option<(Frac, Frac)> {
    if s.d == 0 {
        if s.lo <= s.o <= s.hi {
            Some((lo, hi))
        } else {
            None
        }
    } else {
        let e = slab_entry(s.lo, s.hi, s.o, s.d);
        let x = slab_exit(s.lo, s.hi, s.o, s.d);
        let lo2 = if lo.lt(e) { e } else { lo };
        let hi2 = if x.lt(hi) { x } else { hi };
        if lo2.lt(hi2) {
            Some((lo2, hi2))
        } else {
            None
        }
    }
}

fn narrow(lo_c: i32, hi_c: i32, o: i32, d: i32, lo: Frac, hi: Frac) -> (r: Option<(Frac, Frac)>)
    requires
        lo.wf(),
        hi.wf(),
    ensures
        r == narrowed(Slab { lo: lo_c as int, hi: hi_c as int, o: o as int, d: d as int }, lo, hi),
        r matches Some(w) ==> w.0.wf() && w.1.wf(),
{
    if d == 0 {
        if lo_c <= o && o <= hi_c {
            Some((lo, hi))
        } else {
            None
        }
    } else {
        let (e, x) = if d > 0 {
            (
                Frac { num: lo_c as i64 - o as i64, den: d as i64 },
                Frac { num: hi_c as i64 - o as i64, den: d as i64 },
            )
        } else {
            (
                Frac { num: o as i64 - hi_c as i64, den: -(d as i64) },
                Frac { num: o as i64 - lo_c as i64, den: -(d as i64) },
            )
        };
        let lo2 = if lo.less(e) { e } else { lo };
        let hi2 = if x.less(hi) { x } else { hi };
        if lo2.less(hi2) {
            Some((lo2, hi2))
        } else {
            None
        }
    }
}

/// What a window that survived a slab has gained.
proof fn lemma_narrowed_some(s: Slab, lo: Frac, hi: Frac)
    requires
        narrowed(s, lo, hi) is Some,
        lo.lt(hi),
        lo.den > 0,
        hi.den > 0,
        -0x8000_0000 <= s.lo <= 0x7fff_ffff,
        -0x8000_0000 <= s.hi <= 0x7fff_ffff,
        -0x8000_0000 <= s.o <= 0x7fff_ffff,
        -0x8000_0000 <= s.d <= 0x7fff_ffff,
    ensures
        ({
            let (lo2, hi2) = narrowed(s, lo, hi)->0;
            &&& s.admits()
            &&& lo2.den > 0 && hi2.den > 0
            &&& lo.le(lo2)
            &&& hi2.le(hi)
            &&& lo2.lt(hi2)
            &&& s.entered_by(lo2)
            &&& s.not_left_by(hi2)
            &&& (lo2 == lo || (s.d != 0 && lo2 == slab_entry(s.lo, s.hi, s.o, s.d)))
            &&& (hi2 == hi || (s.d != 0 && hi2 == slab_exit(s.lo, s.hi, s.o, s.d)))
        }),
{
}

/// A bound on the entries stays one when the window's lower end rises.
proof fn lemma_raise(s: Slab, lo: Frac, lo2: Frac)
    requires
        s.entered_by(lo),
        lo.le(lo2),
        lo.den > 0,
        lo2.den > 0,
        -0x8000_0000 <= s.d <= 0x7fff_ffff,
    ensures
        s.entered_by(lo2),
{
    if s.d != 0 {
        let e = slab_entry(s.lo, s.hi, s.o, s.d);
        if !e.le(lo2) {
            lemma_le_lt(lo, lo2, e);
            lemma_le_lt(e, lo, e);
        }
    }
}

/// A bound on the exits stays one when the window's upper end falls.
proof fn lemma_lower(s: Slab, hi: Frac, hi2: Frac)
    requires
        s.not_left_by(hi),
        hi2.le(hi),
        hi.den > 0,
        hi2.den > 0,
        -0x8000_0000 <= s.d <= 0x7fff_ffff,
    ensures
        s.not_left_by(hi2),
{
    if s.d != 0 {
        let x = slab_exit(s.lo, s.hi, s.o, s.d);
        if !hi2.le(x) {
            lemma_lt_le(x, hi2, hi);
            lemma_lt_le(x, hi, x);
        }
    }
}

/// An entry below the window and an exit above it are in order.
proof fn lemma_pair(s1: Slab, s2: Slab, lo: Frac, hi: Frac)
    requires
        s1.entered_by(lo),
        s2.not_left_by(hi),
        lo.lt(hi),
        lo.den > 0,
        hi.den > 0,
        -0x8000_0000 <= s1.d <= 0x7fff_ffff,
        -0x8000_0000 <= s2.d <= 0x7fff_ffff,
    ensures
        s1.enters_before_exit_of(s2),
{
    if s1.d != 0 && s2.d != 0 {
        let e = slab_entry(s1.lo, s1.hi, s1.o, s1.d);
        let x = slab_exit(s2.lo, s2.hi, s2.o, s2.d);
        lemma_le_lt(e, lo, hi);
        lemma_lt_le(e, hi, x);
    }
}

impl Aabb {
    /// `f` is the lower end of the clip interval or the entry into a slab.
    pub open spec fn is_entry(self, ray: Ray, clip: Clip, f: Frac) -> bool {
        let (sx, sy, sz) = (self.slab_x(ray), self.slab_y(ray), self.slab_z(ray));
        ||| f == (Frac { num: clip.min as i64, den: 1 })
        ||| sx.d != 0 && f == slab_entry(sx.lo, sx.hi, sx.o, sx.d)
        ||| sy.d != 0 && f == slab_entry(sy.lo, sy.hi, sy.o, sy.d)
        ||| sz.d != 0 && f == slab_entry(sz.lo, sz.hi, sz.o, sz.d)
    }

    /// `f` is the upper end of the clip interval or the exit from a slab.
    pub open spec fn is_exit(self, ray: Ray, clip: Clip, f: Frac) -> bool {
        let (sx, sy, sz) = (self.slab_x(ray), self.slab_y(ray), self.slab_z(ray));
        ||| f == (Frac { num: clip.max as i64, den: 1 })
        ||| sx.d != 0 && f == slab_exit(sx.lo, sx.hi, sx.o, sx.d)
        ||| sy.d != 0 && f == slab_exit(sy.lo, sy.hi, sy.o, sy.d)
        ||| sz.d != 0 && f == slab_exit(sz.lo, sz.hi, sz.o, sz.d)
    }

    /// Where the ray hits the box, every entry comes before every exit.
    pub proof fn lemma_hit_orders(self, ray: Ray, clip: Clip, f: Frac, g: Frac)
        requires
            self.spec_hit(ray, clip),
            self.is_entry(ray, clip, f),
            self.is_exit(ray, clip, g),
        ensures
            f.lt(g),
    {
    }

    /// Whether the ray passes through the box within the clip interval.
    pub fn hit(&self, ray: &Ray, clip: &Clip) -> (b: bool)
        ensures
            b == self.spec_hit(*ray, *clip),
    {
        let ghost (sx, sy, sz) = (self.slab_x(*ray), self.slab_y(*ray), self.slab_z(*ray));
        let t_min = Frac { num: clip.min as i64, den: 1 };
        let t_max = Frac { num: clip.max as i64, den: 1 };
        if !t_min.less(t_max) {
            return false;
        }
        let w1 = narrow(self.min.x, self.max.x, ray.origin.x, ray.direction.x, t_min, t_max);
        if w1.is_none() {
            proof {
                if self.spec_hit(*ray, *clip) {
                    let e = slab_entry(sx.lo, sx.hi, sx.o, sx.d);
                    let x = slab_exit(sx.lo, sx.hi, sx.o, sx.d);
                    self.lemma_hit_orders(*ray, *clip, t_min, x);
                    self.lemma_hit_orders(*ray, *clip, e, t_max);
                    self.lemma_hit_orders(*ray, *clip, e, x);
                }
            }
            return false;
        }
        let (lo1, hi1) = w1.unwrap();
        proof {
            lemma_narrowed_some(sx, t_min, t_max);
        }
        let w2 = narrow(self.min.y, self.max.y, ray.origin.y, ray.direction.y, lo1, hi1);
        if w2.is_none() {
            proof {
                if self.spec_hit(*ray, *clip) {
                    let e = slab_entry(sy.lo, sy.hi, sy.o, sy.d);
                    let x = slab_exit(sy.lo, sy.hi, sy.o, sy.d);
                    self.lemma_hit_orders(*ray, *clip, lo1, hi1);
                    self.lemma_hit_orders(*ray, *clip, lo1, x);
                    self.lemma_hit_orders(*ray, *clip, e, hi1);
                    self.lemma_hit_orders(*ray, *clip, e, x);
                }
            }
            return false;
        }
        let (lo2, hi2) = w2.unwrap();
        proof {
            lemma_narrowed_some(sy, lo1, hi1);
            lemma_raise(sx, lo1, lo2);
            lemma_lower(sx, hi1, hi2);
        }
        let w3 = narrow(self.min.z, self.max.z, ray.origin.z, ray.direction.z, lo2, hi2);
        if w3.is_none() {
            proof {
                if self.spec_hit(*ray, *clip) {
                    let e = slab_entry(sz.lo, sz.hi, sz.o, sz.d);
                    let x = slab_exit(sz.lo, sz.hi, sz.o, sz.d);
                    self.lemma_hit_orders(*ray, *clip, lo2, hi2);
                    self.lemma_hit_orders(*ray, *clip, lo2, x);
                    self.lemma_hit_orders(*ray, *clip, e, hi2);
                    self.lemma_hit_orders(*ray, *clip, e, x);
                }
            }
            return false;
        }
        proof {
            let (lo3, hi3) = w3.unwrap();
            lemma_narrowed_some(sz, lo2, hi2);
            lemma_raise(sx, lo2, lo3);
            lemma_lower(sx, hi2, hi3);
            lemma_raise(sy, lo2, lo3);
            lemma_lower(sy, hi2, hi3);
            lemma_pair(sx, sx, lo3, hi3);
            lemma_pair(sx, sy, lo3, hi3);
            lemma_pair(sx, sz, lo3, hi3);
            lemma_pair(sy, sx, lo3, hi3);
            lemma_pair(sy, sy, lo3, hi3);
            lemma_pair(sy, sz, lo3, hi3);
            lemma_pair(sz, sx, lo3, hi3);
            lemma_pair(sz, sy, lo3, hi3);
            lemma_pair(sz, sz, lo3, hi3);
            lemma_clip_pairs(sx, t_min, t_max, lo1, lo2, lo3, hi1, hi2, hi3);
            lemma_clip_pairs(sy, t_min, t_max, lo1, lo2, lo3, hi1, hi2, hi3);
            lemma_clip_pairs(sz, t_min, t_max, lo1, lo2, lo3, hi1, hi2, hi3);
        }
        true
    }
}

/// A slab that bounds the last window is in order with both ends of the
/// clip interval that the windows started from.
proof fn lemma_clip_pairs(
    s: Slab,
    t_min: Frac,
    t_max: Frac,
    lo1: Frac,
    lo2: Frac,
    lo3: Frac,
    hi1: Frac,
    hi2: Frac,
    hi3: Frac,
)
    requires
        t_min.den > 0 && t_max.den > 0,
        lo1.den > 0 && lo2.den > 0 && lo3.den > 0,
        hi1.den > 0 && hi2.den > 0 && hi3.den > 0,
        t_min.le(lo1) && lo1.le(lo2) && lo2.le(lo3),
        hi3.le(hi2) && hi2.le(hi1) && hi1.le(t_max),
        lo3.lt(hi3),
        s.entered_by(lo3),
        s.not_left_by(hi3),
        -0x8000_0000 <= s.d <= 0x7fff_ffff,
    ensures
        s.leaves_after(t_min),
        s.enters_before(t_max),
{
    if s.d != 0 {
        let e = slab_entry(s.lo, s.hi, s.o, s.d);
        let x = slab_exit(s.lo, s.hi, s.o, s.d);
        lemma_le_lt(lo2, lo3, hi3);
        lemma_le_lt(lo1, lo2, hi3);
        lemma_le_lt(t_min, lo1, hi3);
        lemma_lt_le(t_min, hi3, x);
        lemma_lt_le(lo3, hi3, hi2);
        lemma_lt_le(lo3, hi2, hi1);
        lemma_lt_le(lo3, hi1, t_max);
        lemma_le_lt(e, lo3, t_max);
    }
}

/// The union of two boxes reaches at least as far as each of them, on
/// every axis and in both directions, and is a box in good standing where one
/// of them is.
pub proof fn lemma_union_grows(a: Aabb, b: Aabb)
    ensures
        a.spec_union(b).min.all_le(a.min),
        a.spec_union(b).min.all_le(b.min),
        a.max.all_le(a.spec_union(b).max),
        b.max.all_le(a.spec_union(b).max),
        a.within(a.spec_union(b)),
        b.within(a.spec_union(b)),
        a.wf() || b.wf() ==> a.spec_union(b).wf(),
{
}

/// The volume of a box is never negative, and positive for a box in good
/// standing.
pub proof fn lemma_area_sign(a: Aabb)
    ensures
        a.spec_area() >= 0,
        a.wf() ==> a.spec_area() > 0,
{
    let dx = edge(a.min.x as int, a.max.x as int);
    let dy = edge(a.min.y as int, a.max.y as int);
    let dz = edge(a.min.z as int, a.max.z as int);
    assert(dx * dy * dz >= 0) by (nonlinear_arith)
        requires
            dx >= 0,
            dy >= 0,
            dz >= 0,
    ;
    if a.wf() {
        assert(dx * dy * dz > 0) by (nonlinear_arith)
            requires
                dx > 0,
                dy > 0,
                dz > 0,
        ;
    }
}

/// The volume of the intersection of two boxes is never negative.
pub proof fn lemma_intersection_area_nonnegative(a: Aabb, b: Aabb)
    ensures
        a.spec_intersection(b).spec_area() >= 0,
        a.spec_overlap(b) >= 0,
{
    lemma_area_sign(a.spec_intersection(b));
}

/// A box overlaps itself in its whole volume.
pub proof fn lemma_overlap_self(a: Aabb)
    ensures
        a.spec_intersection(a) == a,
        a.spec_overlap(a) == a.spec_area(),
{
}

/// Two boxes overlap each other by the same volume.
pub proof fn lemma_overlap_symmetric(a: Aabb, b: Aabb)
    ensures
        a.spec_overlap(b) == b.spec_overlap(a),
{
    assert(a.spec_intersection(b) == b.spec_intersection(a));
}

/// Taking unions box by box gives the same box however they are grouped.
pub proof fn lemma_union_associative(a: Aabb, b: Aabb, c: Aabb)
    ensures
        a.spec_union(b).spec_union(c) == a.spec_union(b.spec_union(c)),
{
}

/// The union of two boxes does not depend on their order.
pub proof fn lemma_union_commutative(a: Aabb, b: Aabb)
    ensures
        a.spec_union(b) == b.spec_union(a),
{
}

/// A wider slab is entered no later and left no sooner.
proof fn lemma_slab_widen(a: Slab, b: Slab)
    requires
        b.lo <= a.lo,
        a.hi <= b.hi,
        a.o == b.o,
        a.d == b.d,
        a.d != 0,
        -0x8000_0000 <= a.lo <= 0x7fff_ffff,
        -0x8000_0000 <= a.hi <= 0x7fff_ffff,
        -0x8000_0000 <= b.lo <= 0x7fff_ffff,
        -0x8000_0000 <= b.hi <= 0x7fff_ffff,
        -0x8000_0000 <= a.o <= 0x7fff_ffff,
        -0x8000_0000 <= a.d <= 0x7fff_ffff,
    ensures
        slab_entry(b.lo, b.hi, b.o, b.d).le(slab_entry(a.lo, a.hi, a.o, a.d)),
        slab_exit(a.lo, a.hi, a.o, a.d).le(slab_exit(b.lo, b.hi, b.o, b.d)),
        slab_entry(a.lo, a.hi, a.o, a.d).den > 0,
        slab_entry(b.lo, b.hi, b.o, b.d).den > 0,
        slab_exit(a.lo, a.hi, a.o, a.d).den > 0,
        slab_exit(b.lo, b.hi, b.o, b.d).den > 0,
{
    let d = if a.d > 0 { a.d } else { -a.d };
    let (ea, eb) = (slab_entry(a.lo, a.hi, a.o, a.d), slab_entry(b.lo, b.hi, b.o, b.d));
    let (xa, xb) = (slab_exit(a.lo, a.hi, a.o, a.d), slab_exit(b.lo, b.hi, b.o, b.d));
    assert(ea.den == d && eb.den == d && xa.den == d && xb.den == d);
    assert(eb.num <= ea.num);
    assert(xa.num <= xb.num);
    assert(eb.num * d <= ea.num * d) by (nonlinear_arith)
        requires
            eb.num <= ea.num,
            d > 0,
    ;
    assert(xa.num * d <= xb.num * d) by (nonlinear_arith)
        requires
            xa.num <= xb.num,
            d > 0,
    ;
}

/// Where the entry into one slab comes before the exit from another, the
/// same holds of two slabs that are wider.
proof fn lemma_pair_widen(ai: Slab, bi: Slab, aj: Slab, bj: Slab)
    requires
        bi.lo <= ai.lo && ai.hi <= bi.hi && ai.o == bi.o && ai.d == bi.d,
        bj.lo <= aj.lo && aj.hi <= bj.hi && aj.o == bj.o && aj.d == bj.d,
        slab_in_range(ai) && slab_in_range(bi) && slab_in_range(aj) && slab_in_range(bj),
        ai.enters_before_exit_of(aj),
    ensures
        bi.enters_before_exit_of(bj),
{
    if ai.d != 0 && aj.d != 0 {
        lemma_slab_widen(ai, bi);
        lemma_slab_widen(aj, bj);
        let (ea, eb) = (slab_entry(ai.lo, ai.hi, ai.o, ai.d), slab_entry(bi.lo, bi.hi, bi.o, bi.d));
        let (xa, xb) = (slab_exit(aj.lo, aj.hi, aj.o, aj.d), slab_exit(bj.lo, bj.hi, bj.o, bj.d));
        lemma_le_lt(eb, ea, xa);
        lemma_lt_le(eb, xa, xb);
    }
}

/// Every part of the slab is a coordinate of the lattice.
pub open spec fn slab_in_range(s: Slab) -> bool {
    &&& -0x8000_0000 <= s.lo <= 0x7fff_ffff
    &&& -0x8000_0000 <= s.hi <= 0x7fff_ffff
    &&& -0x8000_0000 <= s.o <= 0x7fff_ffff
    &&& -0x8000_0000 <= s.d <= 0x7fff_ffff
}

/// Where a slab is left after, and entered before, the ends of a clip
/// interval, a wider slab is so for a wider interval.
proof fn lemma_clip_widen(a: Slab, b: Slab, c1: Clip, c2: Clip)
    requires
        b.lo <= a.lo && a.hi <= b.hi && a.o == b.o && a.d == b.d,
        slab_in_range(a) && slab_in_range(b),
        c2.min <= c1.min,
        c1.max <= c2.max,
        a.leaves_after(Frac { num: c1.min as i64, den: 1 }),
        a.enters_before(Frac { num: c1.max as i64, den: 1 }),
    ensures
        b.leaves_after(Frac { num: c2.min as i64, den: 1 }),
        b.enters_before(Frac { num: c2.max as i64, den: 1 }),
{
    if a.d != 0 {
        lemma_slab_widen(a, b);
        let (ea, eb) = (slab_entry(a.lo, a.hi, a.o, a.d), slab_entry(b.lo, b.hi, b.o, b.d));
        let (xa, xb) = (slab_exit(a.lo, a.hi, a.o, a.d), slab_exit(b.lo, b.hi, b.o, b.d));
        let (lo1, hi1) = (Frac { num: c1.min as i64, den: 1 }, Frac { num: c1.max as i64, den: 1 });
        let (lo2, hi2) = (Frac { num: c2.min as i64, den: 1 }, Frac { num: c2.max as i64, den: 1 });
        lemma_le_lt(lo2, lo1, xa);
        lemma_lt_le(lo2, xa, xb);
        lemma_le_lt(eb, ea, hi1);
        lemma_lt_le(eb, hi1, hi2);
    }
}

/// A ray that hits a box within a clip interval hits every box that holds
/// the first one, within every clip interval that holds the first one.
pub proof fn lemma_hit_monotonic(a: Aabb, b: Aabb, ray: Ray, c1: Clip, c2: Clip)
    requires
        a.within(b),
        c2.min <= c1.min,
        c1.max <= c2.max,
        a.spec_hit(ray, c1),
    ensures
        b.spec_hit(ray, c2),
{
    let (ax, ay, az) = (a.slab_x(ray), a.slab_y(ray), a.slab_z(ray));
    let (bx, by, bz) = (b.slab_x(ray), b.slab_y(ray), b.slab_z(ray));
    lemma_clip_widen(ax, bx, c1, c2);
    lemma_clip_widen(ay, by, c1, c2);
    lemma_clip_widen(az, bz, c1, c2);
    lemma_pair_widen(ax, bx, ax, bx);
    lemma_pair_widen(ax, bx, ay, by);
    lemma_pair_widen(ax, bx, az, bz);
    lemma_pair_widen(ay, by, ax, bx);
    lemma_pair_widen(ay, by, ay, by);
    lemma_pair_widen(ay, by, az, bz);
    lemma_pair_widen(az, bz, ax, bx);
    lemma_pair_widen(az, bz, ay, by);
    lemma_pair_widen(az, bz, az, bz);
}

/// One of the six directions along the axes.
#[derive(Debug, Clone, Copy, PartialEq, Eq, Structural)]
pub enum Axis {
    PosX,
    PosY,
    PosZ,
    NegX,
    NegY,
    NegZ,
}

impl Axis {
    /// The positive direction of the first axis whose bit is set in the
    /// mask, `x` before `y` before `z`; that of `z` where none is set.
    pub fn from_mask(mask: u32) -> (a: Self)
        ensures
            a == if mask & 1 != 0 {
                Axis::PosX
            } else if mask & 2 != 0 {
                Axis::PosY
            } else {
                Axis::PosZ
            },
    {
        if mask & 1 != 0 {
            Axis::PosX
        } else if mask & 2 != 0 {
            Axis::PosY
        } else {
            Axis::PosZ
        }
    }

    /// The bit of the axis that the direction runs along.
    pub open spec fn spec_bit(self) -> u32 {
        match self {
            Axis::PosX | Axis::NegX => 1,
            Axis::PosY | Axis::NegY => 2,
            Axis::PosZ | Axis::NegZ => 4,
        }
    }

    /// The direction the other way.
    pub open spec fn spec_flipped(self) -> Axis {
        match self {
            Axis::PosX => Axis::NegX,
            Axis::PosY => Axis::NegY,
            Axis::PosZ => Axis::NegZ,
            Axis::NegX => Axis::PosX,
            Axis::NegY => Axis::PosY,
            Axis::NegZ => Axis::PosZ,
        }
    }

    /// The step of length one in the direction.
    pub fn as_vec(&self) -> (v: Point3)
        ensures
            v == match *self {
                Axis::PosX => Point3 { x: 1, y: 0, z: 0 },
                Axis::PosY => Point3 { x: 0, y: 1, z: 0 },
                Axis::PosZ => Point3 { x: 0, y: 0, z: 1 },
                Axis::NegX => Point3 { x: -1i32, y: 0, z: 0 },
                Axis::NegY => Point3 { x: 0, y: -1i32, z: 0 },
                Axis::NegZ => Point3 { x: 0, y: 0, z: -1i32 },
            },
    {
        match self {
            Axis::PosX => Point3 { x: 1, y: 0, z: 0 },
            Axis::PosY => Point3 { x: 0, y: 1, z: 0 },
            Axis::PosZ => Point3 { x: 0, y: 0, z: 1 },
            Axis::NegX => Point3 { x: -1, y: 0, z: 0 },
            Axis::NegY => Point3 { x: 0, y: -1, z: 0 },
            Axis::NegZ => Point3 { x: 0, y: 0, z: -1 },
        }
    }

    /// Turns the direction round where the bit of its axis is set in the
    /// mask.
    pub fn flip_with(&mut self, mask: u32)
        ensures
            *final(self) == if mask & old(self).spec_bit() != 0 {
                old(self).spec_flipped()
            } else {
                *old(self)
            },
    {
        let bit: u32 = match *self {
            Axis::PosX | Axis::NegX => 1,
            Axis::PosY | Axis::NegY => 2,
            Axis::PosZ | Axis::NegZ => 4,
        };
        if mask & bit != 0 {
            *self = match *self {
                Axis::PosX => Axis::NegX,
                Axis::PosY => Axis::NegY,
                Axis::PosZ => Axis::NegZ,
                Axis::NegX => Axis::PosX,
                Axis::NegY => Axis::PosY,
                Axis::NegZ => Axis::PosZ,
            };
        }
    }
}

/// The coordinate of the upper face of a box where a place is given relative
/// to the box; that of the lower face is zero.
pub const COORD_ONE: u32 = 65536;

/// How far `c` lies along the edge from `lo` to `hi`, in parts of
/// `COORD_ONE`, rounded down; zero before the edge and `COORD_ONE` after it.
pub open spec fn spec_along(lo: int, hi: int, c: int) -> int
    recommends
        lo < hi,
{
    if c <= lo {
        0
    } else if c >= hi {
        COORD_ONE as int
    } else {
        ((c - lo) * COORD_ONE) / (hi - lo)
    }
}

fn along(lo: i32, hi: i32, c: i32) -> (r: u32)
    requires
        lo < hi,
    ensures
        r == spec_along(lo as int, hi as int, c as int),
        r <= COORD_ONE,
{
    if c <= lo {
        0
    } else if c >= hi {
        COORD_ONE
    } else {
        let num: u64 = (c as i64 - lo as i64) as u64;
        let den: u64 = (hi as i64 - lo as i64) as u64;
        assert(num * 65536 <= 0x1_0000_0000 * 65536) by (nonlinear_arith)
            requires
                num < 0x1_0000_0000,
        ;
        assert((num * 65536) / (den as int) <= 65536) by (nonlinear_arith)
            requires
                0 <= num < den,
        {
            assert(num * 65536 < den * 65536);
            assert((den * 65536) / (den as int) == 65536);
        }
        ((num * (COORD_ONE as u64)) / den) as u32
    }
}

impl Aabb {
    /// The place of a point relative to the box: along every axis, how far
    /// the point lies from the lower face to the upper one.
    pub fn map_into(&self, coord: Point3) -> (r: (u32, u32, u32))
        requires
            self.wf(),
        ensures
            r.0 == spec_along(self.min.x as int, self.max.x as int, coord.x as int),
            r.1 == spec_along(self.min.y as int, self.max.y as int, coord.y as int),
            r.2 == spec_along(self.min.z as int, self.max.z as int, coord.z as int),
            r.0 <= COORD_ONE && r.1 <= COORD_ONE && r.2 <= COORD_ONE,
    {
        (
            along(self.min.x, self.max.x, coord.x),
            along(self.min.y, self.max.y, coord.y),
            along(self.min.z, self.max.z, coord.z),
        )
    }
}

impl Ray {
    /// The ray from a point in a direction.
    pub fn new(origin: Point3, direction: Point3) -> (r: Self)
        ensures
            r == (Ray { origin, direction }),
    {
        Ray { origin, direction }
    }

    /// The point of the ray at the parameter `t`.
    pub fn at(&self, t: i32) -> (p: Extent3)
        ensures
            p.x == self.origin.x + t * self.direction.x,
            p.y == self.origin.y + t * self.direction.y,
            p.z == self.origin.z + t * self.direction.z,
    {
        proof {
            lemma_step_bound(t as int, self.direction.x as int);
            lemma_step_bound(t as int, self.direction.y as int);
            lemma_step_bound(t as int, self.direction.z as int);
        }
        Extent3 {
            x: self.origin.x as i64 + (t as i64) * (self.direction.x as i64),
            y: self.origin.y as i64 + (t as i64) * (self.direction.y as i64),
            z: self.origin.z as i64 + (t as i64) * (self.direction.z as i64),
        }
    }
}

proof fn lemma_step_bound(t: int, d: int)
    requires
        -0x8000_0000 <= t <= 0x7fff_ffff,
        -0x8000_0000 <= d <= 0x7fff_ffff,
    ensures
        -0x4000_0000_0000_0000 <= t * d <= 0x4000_0000_0000_0000,
{
    assert(-0x4000_0000_0000_0000 <= t * d <= 0x4000_0000_0000_0000) by (nonlinear_arith)
        requires
            -0x8000_0000 <= t <= 0x7fff_ffff,
            -0x8000_0000 <= d <= 0x7fff_ffff,
    ;
}

/// `a0 / a1 <= b0 / b1 < c0 / c1` gives `a0 / a1 < c0 / c1`.
proof fn lemma_ratio_le_lt(a0: int, a1: int, b0: int, b1: int, c0: int, c1: int)
    requires
        a1 > 0,
        b1 > 0,
        c1 > 0,
        a0 * b1 <= b0 * a1,
        b0 * c1 < c0 * b1,
    ensures
        a0 * c1 < c0 * a1,
{
    assert(a0 * c1 < c0 * a1) by (nonlinear_arith)
        requires
            a1 > 0,
            b1 > 0,
            c1 > 0,
            a0 * b1 <= b0 * a1,
            b0 * c1 < c0 * b1,
    {
        assert((a0 * b1) * c1 <= (b0 * a1) * c1);
        assert((b0 * c1) * a1 < (c0 * b1) * a1);
        assert((a0 * c1) * b1 < (c0 * a1) * b1);
    }
}

/// `a0 / a1 < b0 / b1 <= c0 / c1` gives `a0 / a1 < c0 / c1`.
proof fn lemma_ratio_lt_le(a0: int, a1: int, b0: int, b1: int, c0: int, c1: int)
    requires
        a1 > 0,
        b1 > 0,
        c1 > 0,
        a0 * b1 < b0 * a1,
        b0 * c1 <= c0 * b1,
    ensures
        a0 * c1 < c0 * a1,
{
    assert(a0 * c1 < c0 * a1) by (nonlinear_arith)
        requires
            a1 > 0,
            b1 > 0,
            c1 > 0,
            a0 * b1 < b0 * a1,
            b0 * c1 <= c0 * b1,
    {
        assert((a0 * b1) * c1 < (b0 * a1) * c1);
        assert((b0 * c1) * a1 <= (c0 * b1) * a1);
        assert((a0 * c1) * b1 < (c0 * a1) * b1);
    }
}

/// `a0 / a1 <= b0 / b1 <= c0 / c1` gives `a0 / a1 <= c0 / c1`.
proof fn lemma_ratio_le_le(a0: int, a1: int, b0: int, b1: int, c0: int, c1: int)
    requires
        a1 > 0,
        b1 > 0,
        c1 > 0,
        a0 * b1 <= b0 * a1,
        b0 * c1 <= c0 * b1,
    ensures
        a0 * c1 <= c0 * a1,
{
    assert(a0 * c1 <= c0 * a1) by (nonlinear_arith)
        requires
            a1 > 0,
            b1 > 0,
            c1 > 0,
            a0 * b1 <= b0 * a1,
            b0 * c1 <= c0 * b1,
    {
        assert((a0 * b1) * c1 <= (b0 * a1) * c1);
        assert((b0 * c1) * a1 <= (c0 * b1) * a1);
        assert((a0 * c1) * b1 <= (c0 * a1) * b1);
    }
}

impl Slab {
    /// At the parameter `p / q` the ray is strictly inside the slab; a ray
    /// that does not move along the axis is inside a slab whose faces it
    /// lies between or in.
    pub open spec fn holds_at(self, p: int, q: int) -> bool {
        if self.d == 0 {
            self.lo <= self.o <= self.hi
        } else {
            self.lo * q < self.o * q + p * self.d < self.hi * q
        }
    }

    /// A ray that moves along the axis is strictly inside the slab exactly
    /// between its entry and its exit.
    proof fn lemma_holds_between(self, p: int, q: int)
        requires
            q > 0,
            self.d != 0,
            slab_in_range(self),
        ensures
            self.holds_at(p, q) <==> {
                let e = slab_entry(self.lo, self.hi, self.o, self.d);
                let x = slab_exit(self.lo, self.hi, self.o, self.d);
                e.num * q < p * e.den && p * x.den < x.num * q
            },
            slab_entry(self.lo, self.hi, self.o, self.d).den > 0,
            slab_exit(self.lo, self.hi, self.o, self.d).den > 0,
    {
        let (lo, hi, o, d) = (self.lo, self.hi, self.o, self.d);
        assert((lo - o) * q == lo * q - o * q) by (nonlinear_arith);
        assert((hi - o) * q == hi * q - o * q) by (nonlinear_arith);
        assert((o - hi) * q == o * q - hi * q) by (nonlinear_arith);
        assert((o - lo) * q == o * q - lo * q) by (nonlinear_arith);
        assert(p * (-d) == -(p * d)) by (nonlinear_arith);
    }
}

/// The later of two parameters.
pub open spec fn later(a: Frac, b: Frac) -> Frac {
    if a.lt(b) {
        b
    } else {
        a
    }
}

/// The sooner of two parameters.
pub open spec fn sooner(a: Frac, b: Frac) -> Frac {
    if b.lt(a) {
        b
    } else {
        a
    }
}

impl Aabb {
    /// At the parameter `p / q` the ray is strictly inside the clip interval
    /// and, along every axis, inside the box.
    pub open spec fn inside_at(self, ray: Ray, clip: Clip, p: int, q: int) -> bool {
        &&& q > 0
        &&& clip.min * q < p < clip.max * q
        &&& self.slab_x(ray).holds_at(p, q)
        &&& self.slab_y(ray).holds_at(p, q)
        &&& self.slab_z(ray).holds_at(p, q)
    }

    /// The last of the entries: into the clip interval and into the slabs
    /// that the ray moves across.
    pub open spec fn last_entry(self, ray: Ray, clip: Clip) -> Frac {
        let (sx, sy, sz) = (self.slab_x(ray), self.slab_y(ray), self.slab_z(ray));
        let a = Frac { num: clip.min as i64, den: 1 };
        let b = if sx.d != 0 { later(a, slab_entry(sx.lo, sx.hi, sx.o, sx.d)) } else { a };
        let c = if sy.d != 0 { later(b, slab_entry(sy.lo, sy.hi, sy.o, sy.d)) } else { b };
        if sz.d != 0 {
            later(c, slab_entry(sz.lo, sz.hi, sz.o, sz.d))
        } else {
            c
        }
    }

    /// The first of the exits: from the clip interval and from the slabs
    /// that the ray moves across.
    pub open spec fn first_exit(self, ray: Ray, clip: Clip) -> Frac {
        let (sx, sy, sz) = (self.slab_x(ray), self.slab_y(ray), self.slab_z(ray));
        let a = Frac { num: clip.max as i64, den: 1 };
        let b = if sx.d != 0 { sooner(a, slab_exit(sx.lo, sx.hi, sx.o, sx.d)) } else { a };
        let c = if sy.d != 0 { sooner(b, slab_exit(sy.lo, sy.hi, sy.o, sy.d)) } else { b };
        if sz.d != 0 {
            sooner(c, slab_exit(sz.lo, sz.hi, sz.o, sz.d))
        } else {
            c
        }
    }

    /// The last entry is an entry that no entry comes after, and the first
    /// exit an exit that no exit comes before.
    proof fn lemma_extremes(self, ray: Ray, clip: Clip)
        ensures
            self.is_entry(ray, clip, self.last_entry(ray, clip)),
            self.is_exit(ray, clip, self.first_exit(ray, clip)),
            self.last_entry(ray, clip).den > 0,
            self.first_exit(ray, clip).den > 0,
            (Frac { num: clip.min as i64, den: 1 }).le(self.last_entry(ray, clip)),
            self.first_exit(ray, clip).le(Frac { num: clip.max as i64, den: 1 }),
            self.slab_x(ray).entered_by(self.last_entry(ray, clip)),
            self.slab_y(ray).entered_by(self.last_entry(ray, clip)),
            self.slab_z(ray).entered_by(self.last_entry(ray, clip)),
            self.slab_x(ray).not_left_by(self.first_exit(ray, clip)),
            self.slab_y(ray).not_left_by(self.first_exit(ray, clip)),
            self.slab_z(ray).not_left_by(self.first_exit(ray, clip)),
    {
        let (sx, sy, sz) = (self.slab_x(ray), self.slab_y(ray), self.slab_z(ray));
        let a = Frac { num: clip.min as i64, den: 1 };
        let b = if sx.d != 0 { later(a, slab_entry(sx.lo, sx.hi, sx.o, sx.d)) } else { a };
        let c = if sy.d != 0 { later(b, slab_entry(sy.lo, sy.hi, sy.o, sy.d)) } else { b };
        let l = self.last_entry(ray, clip);
        assert(a.le(b) && b.le(c) && c.le(l));
        lemma_ratio_le_le(a.num as int, a.den as int, b.num as int, b.den as int, c.num as int, c.den as int);
        lemma_ratio_le_le(a.num as int, a.den as int, c.num as int, c.den as int, l.num as int, l.den as int);
        lemma_ratio_le_le(b.num as int, b.den as int, c.num as int, c.den as int, l.num as int, l.den as int);
        lemma_raise(sx, b, c);
        lemma_raise(sx, c, l);
        lemma_raise(sy, c, l);

        let a2 = Frac { num: clip.max as i64, den: 1 };
        let b2 = if sx.d != 0 { sooner(a2, slab_exit(sx.lo, sx.hi, sx.o, sx.d)) } else { a2 };
        let c2 = if sy.d != 0 { sooner(b2, slab_exit(sy.lo, sy.hi, sy.o, sy.d)) } else { b2 };
        let u = self.first_exit(ray, clip);
        assert(b2.le(a2) && c2.le(b2) && u.le(c2));
        lemma_ratio_le_le(c2.num as int, c2.den as int, b2.num as int, b2.den as int, a2.num as int, a2.den as int);
        lemma_ratio_le_le(u.num as int, u.den as int, c2.num as int, c2.den as int, a2.num as int, a2.den as int);
        lemma_ratio_le_le(u.num as int, u.den as int, c2.num as int, c2.den as int, b2.num as int, b2.den as int);
        lemma_lower(sx, b2, c2);
        lemma_lower(sx, c2, u);
        lemma_lower(sy, c2, u);
    }

    /// A ray hits a box within a clip interval exactly if there is a
    /// parameter strictly inside the clip interval at which the ray is
    /// inside the box: strictly between the two faces along every axis that
    /// it moves along, and between or in the two faces along every other
    /// axis.
    pub proof fn lemma_hit_is_inside(self, ray: Ray, clip: Clip)
        ensures
            self.spec_hit(ray, clip) <==> exists|p: int, q: int| #[trigger]
                self.inside_at(ray, clip, p, q),
    {
        if self.spec_hit(ray, clip) {
            self.lemma_hit_gives_inside(ray, clip);
        }
        if exists|p: int, q: int| #[trigger] self.inside_at(ray, clip, p, q) {
            let (p, q) = choose|p: int, q: int| #[trigger] self.inside_at(ray, clip, p, q);
            self.lemma_inside_gives_hit(ray, clip, p, q);
        }
    }

    /// Half way between the last entry and the first exit the ray is inside
    /// the box.
    proof fn lemma_hit_gives_inside(self, ray: Ray, clip: Clip)
        requires
            self.spec_hit(ray, clip),
        ensures
            exists|p: int, q: int| #[trigger] self.inside_at(ray, clip, p, q),
    {
        let (sx, sy, sz) = (self.slab_x(ray), self.slab_y(ray), self.slab_z(ray));
        let l = self.last_entry(ray, clip);
        let u = self.first_exit(ray, clip);
        self.lemma_extremes(ray, clip);
        self.lemma_hit_orders(ray, clip, l, u);
        let (ln, ld, un, ud) = (l.num as int, l.den as int, u.num as int, u.den as int);
        let p = ln * ud + un * ld;
        let q = 2 * ld * ud;
        assert(q > 0 && ln * q < p * ld && p * ud < un * q) by (nonlinear_arith)
            requires
                ld > 0,
                ud > 0,
                ln * ud < un * ld,
                p == ln * ud + un * ld,
                q == 2 * ld * ud,
        {
            assert(ld * ud > 0);
            assert(ln * (2 * ld * ud) == 2 * (ln * ud) * ld);
            assert((ln * ud + un * ld) * ld == (ln * ud) * ld + (un * ld) * ld);
            assert((ln * ud) * ld < (un * ld) * ld);
            assert((ln * ud + un * ld) * ud == (ln * ud) * ud + (un * ld) * ud);
            assert(un * (2 * ld * ud) == 2 * (un * ld) * ud);
            assert((ln * ud) * ud < (un * ld) * ud);
        }
        lemma_ratio_le_lt(clip.min as int, 1, ln, ld, p, q);
        lemma_ratio_lt_le(p, q, un, ud, clip.max as int, 1);
        self.lemma_slab_inside(sx, l, u, p, q);
        self.lemma_slab_inside(sy, l, u, p, q);
        self.lemma_slab_inside(sz, l, u, p, q);
        assert(self.inside_at(ray, clip, p, q));
    }

    /// A parameter between a bound on the entry into a slab and a bound on
    /// the exit from it is one at which the ray is inside the slab.
    proof fn lemma_slab_inside(self, s: Slab, l: Frac, u: Frac, p: int, q: int)
        requires
            slab_in_range(s),
            s.admits(),
            s.entered_by(l),
            s.not_left_by(u),
            l.den > 0,
            u.den > 0,
            q > 0,
            l.num * q < p * l.den,
            p * u.den < u.num * q,
        ensures
            s.holds_at(p, q),
    {
        if s.d != 0 {
            let e = slab_entry(s.lo, s.hi, s.o, s.d);
            let x = slab_exit(s.lo, s.hi, s.o, s.d);
            s.lemma_holds_between(p, q);
            lemma_ratio_le_lt(e.num as int, e.den as int, l.num as int, l.den as int, p, q);
            lemma_ratio_lt_le(p, q, u.num as int, u.den as int, x.num as int, x.den as int);
        }
    }

    /// A parameter at which the ray is inside the box shows that every
    /// entry comes before every exit.
    proof fn lemma_inside_gives_hit(self, ray: Ray, clip: Clip, p: int, q: int)
        requires
            self.inside_at(ray, clip, p, q),
        ensures
            self.spec_hit(ray, clip),
    {
        let (sx, sy, sz) = (self.slab_x(ray), self.slab_y(ray), self.slab_z(ray));
        assert(clip.min < clip.max) by (nonlinear_arith)
            requires
                q > 0,
                clip.min * q < p < clip.max * q,
        ;
        lemma_between_pair(sx, sx, p, q);
        lemma_between_pair(sx, sy, p, q);
        lemma_between_pair(sx, sz, p, q);
        lemma_between_pair(sy, sx, p, q);
        lemma_between_pair(sy, sy, p, q);
        lemma_between_pair(sy, sz, p, q);
        lemma_between_pair(sz, sx, p, q);
        lemma_between_pair(sz, sy, p, q);
        lemma_between_pair(sz, sz, p, q);
        lemma_between_clip(sx, clip, p, q);
        lemma_between_clip(sy, clip, p, q);
        lemma_between_clip(sz, clip, p, q);
    }
}

/// A parameter at which the ray is inside two slabs lies after the entry
/// into the one and before the exit from the other.
proof fn lemma_between_pair(s1: Slab, s2: Slab, p: int, q: int)
    requires
        q > 0,
        slab_in_range(s1),
        slab_in_range(s2),
        s1.holds_at(p, q),
        s2.holds_at(p, q),
    ensures
        s1.enters_before_exit_of(s2),
{
    if s1.d != 0 && s2.d != 0 {
        let e = slab_entry(s1.lo, s1.hi, s1.o, s1.d);
        let x = slab_exit(s2.lo, s2.hi, s2.o, s2.d);
        s1.lemma_holds_between(p, q);
        s2.lemma_holds_between(p, q);
        lemma_ratio_le_lt(e.num as int, e.den as int, p, q, x.num as int, x.den as int);
    }
}

/// A parameter of the clip interval at which the ray is inside a slab shows
/// that the slab is entered before the interval ends and left after it
/// starts.
proof fn lemma_between_clip(s: Slab, clip: Clip, p: int, q: int)
    requires
        q > 0,
        slab_in_range(s),
        s.holds_at(p, q),
        clip.min * q < p < clip.max * q,
    ensures
        s.leaves_after(Frac { num: clip.min as i64, den: 1 }),
        s.enters_before(Frac { num: clip.max as i64, den: 1 }),
{
    if s.d != 0 {
        let e = slab_entry(s.lo, s.hi, s.o, s.d);
        let x = slab_exit(s.lo, s.hi, s.o, s.d);
        s.lemma_holds_between(p, q);
        lemma_ratio_le_lt(clip.min as int, 1, p, q, x.num as int, x.den as int);
        lemma_ratio_le_lt(e.num as int, e.den as int, p, q, clip.max as int, 1);
    }
}

/// A product of two bounded naturals is bounded by the product of the bounds.
pub proof fn lemma_mul_bound(a: int, b: int, ma: int, mb: int)
    requires
        0 <= a < ma,
        0 <= b < mb,
    ensures
        0 <= a * b < ma * mb,
{
    assert(0 <= a * b < ma * mb) by (nonlinear_arith)
        requires
            0 <= a < ma,
            0 <= b < mb,
    ;
}

} // verus!
