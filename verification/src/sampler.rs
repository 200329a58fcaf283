//! Mixtures of scattering lobes: which lobe a sample is drawn from, and the
//! density that the mixture has where the lobes' densities are known.
//!
//! A mixture is a binary tree. Its leaves are the lobes, numbered from left to
//! right; a `Mix` node holds the weight of its right branch in parts of
//! `WEIGHT_ONE`. Drawing a direction from a lobe and evaluating a lobe's
//! density are the caller's part; densities are fixed-point numbers.

use rand::rngs::SmallRng;
use rand::Rng;
use vstd::prelude::*;

verus! {

/// The generator that a worker draws its random numbers from.
#[verifier::external_type_specification]
#[verifier::external_body]
pub struct ExSmallRng(SmallRng);

/// The weight that stands for certainty.
pub const WEIGHT_ONE: u32 = 65536;

/// The density one, as a fixed-point number.
pub const DENSITY_ONE: i64 = 1048576;

/// A density whose magnitude is below this is of no use as a divisor: the
/// least fixed-point density that is not below a hundred-thousandth.
pub const DENSITY_EPSILON: i64 = 11;

/// A coin that shows heads `numerator` times in `denominator`: `gen_ratio` of
/// `rand::Rng`. All that is claimed is what holds of every throw: a coin with
/// `numerator == denominator` always shows heads, one with `numerator == 0`
/// never does.
#[verifier::external_body]
pub(crate) fn coin(rng: &mut SmallRng, numerator: u32, denominator: u32) -> (heads: bool)
    requires
        denominator > 0,
        numerator <= denominator,
    ensures
        numerator == denominator ==> heads,
        numerator == 0 ==> !heads,
{
    rng.gen_ratio(numerator, denominator)
}

/// A number below `count`, every one as likely as the other: `gen_range` of
/// `rand::Rng` on `0..count`. All that is claimed is the range.
#[verifier::external_body]
pub(crate) fn below(rng: &mut SmallRng, count: usize) -> (i: usize)
    requires
        count > 0,
    ensures
        i < count,
{
    rng.gen_range(0..count)
}

/// A distribution over directions, made of lobes.
#[derive(Debug)]
pub enum Pdf {
    /// The cosine-weighted hemisphere round the normal.
    Diffuse,
    /// The mirror direction, blurred by a roughness.
    Metallic(i32),
    /// Reflection or refraction, blurred by a roughness, for an index of
    /// refraction.
    Glass(i32, i32),
    /// The directions towards the light with the given number.
    Light(usize),
    /// The left distribution or the right one; the weight is that of the
    /// right one.
    Mix(Box<Pdf>, Box<Pdf>, u32),
}

/// `a` moved towards `b` by `w` parts in `WEIGHT_ONE` of their distance,
/// rounded towards `a`.
pub open spec fn spec_lerp(a: int, b: int, w: int) -> int {
    if b >= a {
        a + ((b - a) * w) / (WEIGHT_ONE as int)
    } else {
        a - ((a - b) * w) / (WEIGHT_ONE as int)
    }
}

/// A value moved towards another one lies between the two, is the first one
/// for the weight zero and the second one for the weight `WEIGHT_ONE`.
pub proof fn lemma_lerp_between(a: int, b: int, w: int)
    requires
        0 <= w <= WEIGHT_ONE,
    ensures
        a <= b ==> a <= spec_lerp(a, b, w) <= b,
        b <= a ==> b <= spec_lerp(a, b, w) <= a,
        w == 0 ==> spec_lerp(a, b, w) == a,
        w == WEIGHT_ONE ==> spec_lerp(a, b, w) == b,
{
    let d = if b >= a { b - a } else { a - b };
    let one = WEIGHT_ONE as int;
    assert(0 <= d * w <= d * one) by (nonlinear_arith)
        requires
            d >= 0,
            0 <= w <= one,
    ;
    assert(0 <= (d * w) / one <= d) by {
        vstd::arithmetic::div_mod::lemma_div_is_ordered(d * w, d * one, one);
        vstd::arithmetic::div_mod::lemma_div_multiples_vanish(d, one);
        vstd::arithmetic::div_mod::lemma_div_is_ordered(0, d * w, one);
    }
    if w == 0 {
        assert(d * w == 0) by (nonlinear_arith)
            requires
                w == 0,
        ;
    }
    if w == one {
        assert(d * w == d * one) by (nonlinear_arith)
            requires
                w == one,
        ;
        vstd::arithmetic::div_mod::lemma_div_multiples_vanish(d, one);
    }
}

/// A value moved towards another one by a weight is their mean, the first
/// weighted with what is left of `WEIGHT_ONE` and the second with the
/// weight, but for the rounding towards the first: the weights of the blend
/// are the odds of the coin that draws between the two.
pub proof fn lemma_lerp_is_weighted_mean(a: int, b: int, w: int)
    requires
        0 <= w <= WEIGHT_ONE,
    ensures
        b >= a ==> 0 <= (a * (WEIGHT_ONE - w) + b * w) - spec_lerp(a, b, w) * WEIGHT_ONE
            < WEIGHT_ONE,
        b < a ==> 0 <= spec_lerp(a, b, w) * WEIGHT_ONE - (a * (WEIGHT_ONE - w) + b * w)
            < WEIGHT_ONE,
{
    let one = WEIGHT_ONE as int;
    let d = if b >= a { b - a } else { a - b };
    let n = d * w;
    vstd::arithmetic::div_mod::lemma_fundamental_div_mod(n, one);
    assert(0 <= n % one < one);
    assert(a * (one - w) + b * w == a * one + (b - a) * w) by (nonlinear_arith);
    if b >= a {
        assert((a + n / one) * one == a * one + one * (n / one)) by (nonlinear_arith);
    } else {
        assert((b - a) * w == -((a - b) * w)) by (nonlinear_arith);
        assert((a - n / one) * one == a * one - one * (n / one)) by (nonlinear_arith);
    }
}

fn lerp(a: i64, b: i64, w: u32) -> (r: i64)
    requires
        w <= WEIGHT_ONE,
    ensures
        r == spec_lerp(a as int, b as int, w as int),
{
    proof {
        lemma_lerp_between(a as int, b as int, w as int);
    }
    if b >= a {
        let d: i128 = b as i128 - a as i128;
        assert(0 <= d * w <= 0x1_0000_0000_0000_0000 * 0x1_0000) by (nonlinear_arith)
            requires
                0 <= d < 0x1_0000_0000_0000_0000,
                0 <= w <= 0x1_0000,
        ;
        let step: i128 = (d * (w as i128)) / (WEIGHT_ONE as i128);
        (a as i128 + step) as i64
    } else {
        let d: i128 = a as i128 - b as i128;
        assert(0 <= d * w <= 0x1_0000_0000_0000_0000 * 0x1_0000) by (nonlinear_arith)
            requires
                0 <= d < 0x1_0000_0000_0000_0000,
                0 <= w <= 0x1_0000,
        ;
        let step: i128 = (d * (w as i128)) / (WEIGHT_ONE as i128);
        (a as i128 - step) as i64
    }
}

impl Pdf {
    /// The number of lobes.
    pub open spec fn spec_lobes(self) -> nat
        decreases self,
    {
        match self {
            Pdf::Mix(a, b, _) => a.spec_lobes() + b.spec_lobes(),
            _ => 1,
        }
    }

    /// Every weight is a part of `WEIGHT_ONE`, and the lobes can be counted
    /// in a `usize`.
    pub open spec fn wf(self) -> bool
        decreases self,
    {
        match self {
            Pdf::Mix(a, b, w) => a.wf() && b.wf() && w <= WEIGHT_ONE && self.spec_lobes()
                <= usize::MAX,
            _ => true,
        }
    }

    /// The lobe with the given number.
    pub open spec fn spec_lobe(self, i: int) -> Pdf
        recommends
            0 <= i < self.spec_lobes(),
        decreases self,
    {
        match self {
            Pdf::Mix(a, b, _) => if i < a.spec_lobes() {
                a.spec_lobe(i)
            } else {
                b.spec_lobe(i - a.spec_lobes())
            },
            _ => self,
        }
    }

    /// Whether a draw can fall on the lobe with the given number: on the way
    /// to it no left branch is taken at a weight of `WEIGHT_ONE`, and no
    /// right branch at a weight of zero.
    pub open spec fn can_choose(self, i: int) -> bool
        decreases self,
    {
        match self {
            Pdf::Mix(a, b, w) => if i < a.spec_lobes() {
                w < WEIGHT_ONE && a.can_choose(i)
            } else {
                w > 0 && b.can_choose(i - a.spec_lobes())
            },
            _ => i == 0,
        }
    }

    /// The density of the mixture where the lobes have the densities
    /// `densities[start..]`, in their order: that of a lobe is the density
    /// given for it, but `DENSITY_ONE` for a metallic or a glass lobe; that of
    /// a `Mix` is the left density moved towards the right one by the weight.
    pub open spec fn spec_density(self, densities: Seq<i64>, start: int) -> int
        decreases self,
    {
        match self {
            Pdf::Mix(a, b, w) => spec_lerp(
                a.spec_density(densities, start),
                b.spec_density(densities, start + a.spec_lobes()),
                w as int,
            ),
            Pdf::Metallic(_) => DENSITY_ONE as int,
            Pdf::Glass(_, _) => DENSITY_ONE as int,
            _ => densities[start] as int,
        }
    }

    /// The density as a divisor: none where its magnitude is below
    /// `DENSITY_EPSILON`.
    pub open spec fn spec_pdf(self, densities: Seq<i64>) -> Option<int> {
        let p = self.spec_density(densities, 0);
        if -DENSITY_EPSILON < p < DENSITY_EPSILON {
            None
        } else {
            Some(p)
        }
    }

    /// The density of a mixture lies between the least and the greatest
    /// density of its lobes.
    pub proof fn lemma_density_between(self, densities: Seq<i64>, start: int, lo: int, hi: int)
        requires
            self.wf(),
            0 <= start,
            start + self.spec_lobes() <= densities.len(),
            lo <= DENSITY_ONE <= hi,
            forall|i: int| start <= i < start + self.spec_lobes() ==> lo <= #[trigger] densities[i] <= hi,
        ensures
            lo <= self.spec_density(densities, start) <= hi,
            i64::MIN <= self.spec_density(densities, start) <= i64::MAX,
        decreases self,
    {
        match self {
            Pdf::Mix(a, b, w) => {
                a.lemma_density_between(densities, start, lo, hi);
                b.lemma_density_between(densities, start + a.spec_lobes(), lo, hi);
                lemma_lerp_between(
                    a.spec_density(densities, start),
                    b.spec_density(densities, start + a.spec_lobes()),
                    w as int,
                );
                a.lemma_in_range(densities, start);
                b.lemma_in_range(densities, start + a.spec_lobes());
            },
            _ => {},
        }
    }

    /// The density of a mixture is a number of the range of the densities.
    pub proof fn lemma_in_range(self, densities: Seq<i64>, start: int)
        requires
            self.wf(),
            0 <= start,
            start + self.spec_lobes() <= densities.len(),
        ensures
            i64::MIN <= self.spec_density(densities, start) <= i64::MAX,
        decreases self,
    {
        match self {
            Pdf::Mix(a, b, w) => {
                a.lemma_in_range(densities, start);
                b.lemma_in_range(densities, start + a.spec_lobes());
                lemma_lerp_between(
                    a.spec_density(densities, start),
                    b.spec_density(densities, start + a.spec_lobes()),
                    w as int,
                );
            },
            _ => {},
        }
    }

    /// A lobe that no draw can fall on has no share in the density: the
    /// density of the mixture is the same whatever the density of that lobe.
    pub proof fn lemma_unchosen_has_no_share(self, d1: Seq<i64>, d2: Seq<i64>, start: int, i: int)
        requires
            self.wf(),
            0 <= start,
            0 <= i < self.spec_lobes(),
            start + self.spec_lobes() <= d1.len(),
            d1.len() == d2.len(),
            !self.can_choose(i),
            forall|j: int| 0 <= j < d1.len() && j != start + i ==> d1[j] == d2[j],
        ensures
            self.spec_density(d1, start) == self.spec_density(d2, start),
        decreases self,
    {
        match self {
            Pdf::Mix(a, b, w) => {
                let n = a.spec_lobes() as int;
                a.lemma_lobes_positive();
                b.lemma_lobes_positive();
                if i < n {
                    b.lemma_same_densities(d1, d2, start + n);
                    if w == WEIGHT_ONE {
                        lemma_lerp_between(
                            a.spec_density(d1, start),
                            b.spec_density(d1, start + n),
                            w as int,
                        );
                        lemma_lerp_between(
                            a.spec_density(d2, start),
                            b.spec_density(d2, start + n),
                            w as int,
                        );
                    } else {
                        a.lemma_unchosen_has_no_share(d1, d2, start, i);
                    }
                } else {
                    a.lemma_same_densities(d1, d2, start);
                    if w == 0 {
                        lemma_lerp_between(
                            a.spec_density(d1, start),
                            b.spec_density(d1, start + n),
                            w as int,
                        );
                        lemma_lerp_between(
                            a.spec_density(d2, start),
                            b.spec_density(d2, start + n),
                            w as int,
                        );
                    } else {
                        b.lemma_unchosen_has_no_share(d1, d2, start + n, i - n);
                    }
                }
            },
            _ => {},
        }
    }

    /// The density depends on the densities of the mixture's own lobes only.
    pub proof fn lemma_same_densities(self, d1: Seq<i64>, d2: Seq<i64>, start: int)
        requires
            forall|j: int| start <= j < start + self.spec_lobes() ==> d1[j] == d2[j],
        ensures
            self.spec_density(d1, start) == self.spec_density(d2, start),
        decreases self,
    {
        match self {
            Pdf::Mix(a, b, w) => {
                a.lemma_lobes_positive();
                b.lemma_lobes_positive();
                a.lemma_same_densities(d1, d2, start);
                b.lemma_same_densities(d1, d2, start + a.spec_lobes());
            },
            _ => {},
        }
    }

    /// A mixture has a lobe.
    pub proof fn lemma_lobes_positive(self)
        ensures
            self.spec_lobes() >= 1,
        decreases self,
    {
        match self {
            Pdf::Mix(a, b, _) => {
                a.lemma_lobes_positive();
                b.lemma_lobes_positive();
            },
            _ => {},
        }
    }

    /// The number of lobes.
    pub fn lobes(&self) -> (n: usize)
        requires
            self.wf(),
        ensures
            n == self.spec_lobes(),
            n >= 1,
        decreases self,
    {
        match self {
            Pdf::Mix(a, b, _) => {
                proof {
                    a.lemma_lobes_positive();
                    b.lemma_lobes_positive();
                }
                a.lobes() + b.lobes()
            },
            _ => 1,
        }
    }

    /// The lobe with the given number.
    pub fn lobe(&self, i: usize) -> (l: &Pdf)
        requires
            self.wf(),
            i < self.spec_lobes(),
        ensures
            *l == self.spec_lobe(i as int),
            !(*l is Mix),
        decreases self,
    {
        match self {
            Pdf::Mix(a, b, _) => {
                let n = a.lobes();
                if i < n {
                    a.lobe(i)
                } else {
                    b.lobe(i - n)
                }
            },
            _ => self,
        }
    }

    /// The way on from a `Mix` once its coin is thrown: heads takes the
    /// right distribution, whose lobes are numbered on from those of the
    /// left one, and tails takes the left distribution. The result is the
    /// number of the first lobe of the distribution taken, and that
    /// distribution.
    pub fn branch(&self, heads: bool) -> (r: (usize, &Pdf))
        requires
            self.wf(),
            self is Mix,
        ensures
            r.0 == if heads { self->Mix_0.spec_lobes() } else { 0 },
            *r.1 == if heads { *self->Mix_1 } else { *self->Mix_0 },
            r.1.wf(),
            r.0 + r.1.spec_lobes() <= self.spec_lobes(),
    {
        match self {
            Pdf::Mix(a, b, _) => {
                if heads {
                    (a.lobes(), &**b)
                } else {
                    (0, &**a)
                }
            },
            _ => (0, self),
        }
    }

    /// Draws the lobe that the scattered ray is to come from: at every `Mix`
    /// a coin with the weight of the right branch is thrown, and `branch`
    /// goes on from its outcome.
    pub fn scatter(&self, rng: &mut SmallRng) -> (i: usize)
        requires
            self.wf(),
        ensures
            i < self.spec_lobes(),
            self.can_choose(i as int),
        decreases self,
    {
        match self {
            Pdf::Mix(_, _, x) => {
                let heads = coin(rng, *x, WEIGHT_ONE);
                let (first, taken) = self.branch(heads);
                first + taken.scatter(rng)
            },
            _ => 0,
        }
    }

    fn density_from(&self, densities: &Vec<i64>, start: usize) -> (p: i64)
        requires
            self.wf(),
            start + self.spec_lobes() <= densities@.len(),
        ensures
            p == self.spec_density(densities@, start as int),
        decreases self,
    {
        match self {
            Pdf::Mix(a, b, x) => {
                proof {
                    a.lemma_lobes_positive();
                    b.lemma_lobes_positive();
                }
                let len = densities.len();
                assert(start + a.spec_lobes() <= len);
                let left = a.density_from(densities, start);
                let right = b.density_from(densities, start + a.lobes());
                lerp(left, right, *x)
            },
            Pdf::Metallic(_) => DENSITY_ONE,
            Pdf::Glass(_, _) => DENSITY_ONE,
            _ => densities[start],
        }
    }

    /// The density of the mixture where the lobes have the given densities.
    pub fn pdf_impl(&self, densities: &Vec<i64>) -> (p: i64)
        requires
            self.wf(),
            densities@.len() == self.spec_lobes(),
        ensures
            p == self.spec_density(densities@, 0),
    {
        self.density_from(densities, 0)
    }

    /// The density of the mixture as a divisor: none where it is too near
    /// to zero to divide by.
    pub fn pdf(&self, densities: &Vec<i64>) -> (p: Option<i64>)
        requires
            self.wf(),
            densities@.len() == self.spec_lobes(),
        ensures
            p is Some == self.spec_pdf(densities@) is Some,
            p matches Some(d) ==> self.spec_pdf(densities@) == Some(d as int),
    {
        let p = self.pdf_impl(densities);
        if -DENSITY_EPSILON < p && p < DENSITY_EPSILON {
            None
        } else {
            Some(p)
        }
    }
}

} // verus!
