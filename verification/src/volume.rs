//! Voxel maps: a lattice of values, and the value at a place between the
//! lattice points.
//!
//! A place inside the map is given by three coordinates between zero and
//! `WEIGHT_ONE`, the two ends of the map along an axis.

use crate::sampler::{lemma_lerp_between, spec_lerp, WEIGHT_ONE};
use vstd::prelude::*;

verus! {

/// How the value between lattice points is found.
#[derive(Debug, Clone, Copy, PartialEq, Eq, Structural)]
pub enum SamplingMode {
    /// The value of the lattice point that is nearest.
    Nearest,
    /// The values of the eight lattice points round the place, blended
    /// along `x`, then along `y`, then along `z`.
    Trilinear,
}

impl Default for SamplingMode {
    fn default() -> (m: Self)
        ensures
            m == SamplingMode::Nearest,
    {
        SamplingMode::Nearest
    }
}

/// Values that can be blended.
pub trait Interpolate: Sized {
    /// `self` moved towards `other` by `factor` parts in `WEIGHT_ONE`.
    spec fn spec_lerp(self, other: Self, factor: u32) -> Self;

    /// `self` moved towards `other` by `factor` parts in `WEIGHT_ONE`.
    fn lerp(self, other: Self, factor: u32) -> (r: Self)
        requires
            factor <= WEIGHT_ONE,
        ensures
            r == self.spec_lerp(other, factor),
    ;
}

impl Interpolate for i32 {
    open spec fn spec_lerp(self, other: Self, factor: u32) -> Self {
        spec_lerp(self as int, other as int, factor as int) as i32
    }

    fn lerp(self, other: Self, factor: u32) -> (r: Self) {
        proof {
            lemma_lerp_between(self as int, other as int, factor as int);
        }
        if other >= self {
            let d: i64 = other as i64 - self as i64;
            assert(0 <= d * factor <= 0x1_0000_0000 * 0x1_0000) by (nonlinear_arith)
                requires
                    0 <= d < 0x1_0000_0000,
                    0 <= factor <= 0x1_0000,
            ;
            let step: i64 = (d * (factor as i64)) / (WEIGHT_ONE as i64);
            (self as i64 + step) as i32
        } else {
            let d: i64 = self as i64 - other as i64;
            assert(0 <= d * factor <= 0x1_0000_0000 * 0x1_0000) by (nonlinear_arith)
                requires
                    0 <= d < 0x1_0000_0000,
                    0 <= factor <= 0x1_0000,
            ;
            let step: i64 = (d * (factor as i64)) / (WEIGHT_ONE as i64);
            (self as i64 - step) as i32
        }
    }
}

impl Interpolate for crate::buffer::Sample {
    open spec fn spec_lerp(self, other: Self, factor: u32) -> Self {
        crate::buffer::Sample {
            r: self.r.spec_lerp(other.r, factor),
            g: self.g.spec_lerp(other.g, factor),
            b: self.b.spec_lerp(other.b, factor),
        }
    }

    fn lerp(self, other: Self, factor: u32) -> (r: Self) {
        crate::buffer::Sample {
            r: self.r.lerp(other.r, factor),
            g: self.g.lerp(other.g, factor),
            b: self.b.lerp(other.b, factor),
        }
    }
}

impl<T: Interpolate> Interpolate for Option<T> {
    /// Where one of the two is missing the blend is the other one.
    open spec fn spec_lerp(self, other: Self, factor: u32) -> Self {
        match (self, other) {
            (None, None) => None,
            (Some(x), None) => Some(x),
            (None, Some(y)) => Some(y),
            (Some(x), Some(y)) => Some(x.spec_lerp(y, factor)),
        }
    }

    fn lerp(self, other: Self, factor: u32) -> (r: Self) {
        match (self, other) {
            (None, None) => None,
            (Some(x), None) => Some(x),
            (None, Some(y)) => Some(y),
            (Some(x), Some(y)) => Some(x.lerp(y, factor)),
        }
    }
}

/// What a medium is like at one lattice point. Density and colours are
/// fixed-point numbers.
#[derive(Debug, Clone, Copy, PartialEq, Eq, Structural)]
pub struct Voxel {
    pub density: i32,
    pub albedo: crate::buffer::Sample,
    pub emissive: crate::buffer::Sample,
}

impl Voxel {
    /// A voxel that gives off no light.
    pub fn new(density: i32, albedo: crate::buffer::Sample) -> (v: Self)
        ensures
            v == (Voxel { density, albedo, emissive: crate::buffer::Sample { r: 0, g: 0, b: 0 } }),
    {
        Voxel { density, albedo, emissive: crate::buffer::Sample { r: 0, g: 0, b: 0 } }
    }

    /// A voxel that gives off light.
    pub fn with_emissive(
        density: i32,
        albedo: crate::buffer::Sample,
        emissive: crate::buffer::Sample,
    ) -> (v: Self)
        ensures
            v == (Voxel { density, albedo, emissive }),
    {
        Voxel { density, albedo, emissive }
    }
}

impl Default for Voxel {
    /// Empty space.
    fn default() -> (v: Self)
        ensures
            v == (Voxel {
                density: 0,
                albedo: crate::buffer::Sample { r: 0, g: 0, b: 0 },
                emissive: crate::buffer::Sample { r: 0, g: 0, b: 0 },
            }),
    {
        Voxel {
            density: 0,
            albedo: crate::buffer::Sample { r: 0, g: 0, b: 0 },
            emissive: crate::buffer::Sample { r: 0, g: 0, b: 0 },
        }
    }
}

impl Interpolate for Voxel {
    open spec fn spec_lerp(self, other: Self, factor: u32) -> Self {
        Voxel {
            density: self.density.spec_lerp(other.density, factor),
            albedo: self.albedo.spec_lerp(other.albedo, factor),
            emissive: self.emissive.spec_lerp(other.emissive, factor),
        }
    }

    fn lerp(self, other: Self, factor: u32) -> (r: Self) {
        Voxel {
            density: self.density.lerp(other.density, factor),
            albedo: self.albedo.lerp(other.albedo, factor),
            emissive: self.emissive.lerp(other.emissive, factor),
        }
    }
}

/// A box-shaped lattice of values, stored row by row and layer by layer.
#[derive(Debug, Clone)]
pub struct VoxelMap<V> {
    width: usize,
    height: usize,
    depth: usize,
    buffer: Vec<V>,
}

/// The distance of a place from the start of an axis with `n` lattice
/// points, in parts of `WEIGHT_ONE` of the distance between two points.
pub open spec fn spec_scaled(c: u32, n: int) -> int {
    (if c <= WEIGHT_ONE { c as int } else { WEIGHT_ONE as int }) * (n - 1)
}

/// The lattice point at or before the place.
pub open spec fn spec_floor(c: u32, n: int) -> int {
    spec_scaled(c, n) / (WEIGHT_ONE as int)
}

/// The lattice point at or after the place.
pub open spec fn spec_ceil(c: u32, n: int) -> int {
    (spec_scaled(c, n) + WEIGHT_ONE - 1) / (WEIGHT_ONE as int)
}

/// The lattice point nearest to the place, the later one of two that are
/// equally near.
pub open spec fn spec_round(c: u32, n: int) -> int {
    (spec_scaled(c, n) + WEIGHT_ONE / 2) / (WEIGHT_ONE as int)
}

/// How far the place is past the lattice point before it, in parts of
/// `WEIGHT_ONE`.
pub open spec fn spec_fract(c: u32, n: int) -> int {
    spec_scaled(c, n) % (WEIGHT_ONE as int)
}

/// The lattice points round a place lie on the axis.
pub proof fn lemma_lattice_points(c: u32, n: int)
    requires
        n >= 1,
    ensures
        0 <= spec_floor(c, n) <= spec_ceil(c, n) < n,
        0 <= spec_round(c, n) < n,
        0 <= spec_fract(c, n) < WEIGHT_ONE,
        spec_scaled(c, n) >= 0,
{
    let one = WEIGHT_ONE as int;
    let cc = if c <= WEIGHT_ONE { c as int } else { one };
    let s = cc * (n - 1);
    assert(0 <= s <= one * (n - 1)) by (nonlinear_arith)
        requires
            0 <= cc <= one,
            n >= 1,
            s == cc * (n - 1),
    ;
    assert(s / one >= 0 && (s + one - 1) / one <= n - 1 && (s + one / 2) / one <= n - 1 && s / one
        <= (s + one - 1) / one && (s + one / 2) / one >= 0 && 0 <= s % one < one) by (nonlinear_arith)
        requires
            0 <= s <= one * (n - 1),
            one == 65536,
    ;
}

fn scaled(c: u32, n: usize) -> (s: u128)
    requires
        n >= 1,
    ensures
        s == spec_scaled(c, n as int),
        s <= WEIGHT_ONE * (n - 1),
{
    let cc: u128 = if c <= WEIGHT_ONE { c as u128 } else { WEIGHT_ONE as u128 };
    assert(0 <= cc * (n - 1) <= 0x1_0000 * (n - 1)) by (nonlinear_arith)
        requires
            0 <= cc <= 0x1_0000,
            n >= 1,
    ;
    cc * ((n - 1) as u128)
}

impl<V> VoxelMap<V> {
    /// The number of lattice points along `x`.
    pub closed spec fn spec_width(self) -> int {
        self.width as int
    }

    /// The number of lattice points along `y`.
    pub closed spec fn spec_height(self) -> int {
        self.height as int
    }

    /// The number of lattice points along `z`.
    pub closed spec fn spec_depth(self) -> int {
        self.depth as int
    }

    /// The values, row by row and layer by layer.
    pub closed spec fn values(self) -> Seq<V> {
        self.buffer@
    }

    /// There is a value for every lattice point.
    pub open spec fn wf(self) -> bool {
        &&& 0 <= self.spec_width() && 0 <= self.spec_height() && 0 <= self.spec_depth()
        &&& self.values().len() >= self.spec_width() * self.spec_height() * self.spec_depth()
    }

    /// Whether the map has no lattice point at all.
    pub open spec fn is_empty(self) -> bool {
        self.spec_width() == 0 || self.spec_height() == 0 || self.spec_depth() == 0
    }

    /// Whether the lattice point belongs to the map.
    pub open spec fn has(self, x: int, y: int, z: int) -> bool {
        0 <= x < self.spec_width() && 0 <= y < self.spec_height() && 0 <= z < self.spec_depth()
    }

    /// The value at a lattice point.
    pub open spec fn spec_at(self, x: int, y: int, z: int) -> V {
        self.values()[(z * self.spec_height() + y) * self.spec_width() + x]
    }

    /// The value at a lattice point; none in a map without a lattice point.
    pub open spec fn spec_index(self, x: int, y: int, z: int) -> Option<V> {
        if self.is_empty() {
            None
        } else {
            Some(self.spec_at(x, y, z))
        }
    }

    /// A lattice point of the map has its place among the values.
    pub proof fn lemma_place(self, x: int, y: int, z: int)
        requires
            self.wf(),
            self.has(x, y, z),
        ensures
            0 <= (z * self.spec_height() + y) * self.spec_width() + x < self.values().len(),
            0 <= z * self.spec_height() <= z * self.spec_height() + y < self.values().len(),
            0 <= (z * self.spec_height() + y) * self.spec_width(),
    {
        let (w, h, d) = (self.spec_width(), self.spec_height(), self.spec_depth());
        crate::buffer::lemma_index_in_grid(y, z, h, d);
        crate::buffer::lemma_index_in_grid(x, z * h + y, w, h * d);
        assert(w * (h * d) == w * h * d) by (nonlinear_arith);
        assert(h * d <= w * (h * d)) by (nonlinear_arith)
            requires
                w >= 1,
                h * d >= 0,
        ;
    }

    /// A map of the given size with the given values, of which there must
    /// be one for every lattice point; values beyond those are never read.
    pub fn new(width: usize, height: usize, depth: usize, buffer: Vec<V>) -> (m: Self)
        requires
            buffer@.len() >= width * height * depth,
        ensures
            m.wf(),
            m.spec_width() == width,
            m.spec_height() == height,
            m.spec_depth() == depth,
            m.values() == buffer@,
    {
        VoxelMap { width, height, depth, buffer }
    }

    /// The number of lattice points along `x`, `y` and `z`.
    pub fn dimensions(&self) -> (d: (usize, usize, usize))
        ensures
            d.0 == self.spec_width(),
            d.1 == self.spec_height(),
            d.2 == self.spec_depth(),
    {
        (self.width, self.height, self.depth)
    }
}

/// The lattice point whose value has the given place among the values.
pub open spec fn spec_point(i: int, width: int, height: int) -> (int, int, int) {
    (i % width, (i / width) % height, (i / width) / height)
}

/// The place of a lattice point among the values, and the lattice point of
/// a place, undo each other.
pub proof fn lemma_point_of_place(x: int, y: int, z: int, width: int, height: int)
    requires
        0 <= x < width,
        0 <= y < height,
        0 <= z,
    ensures
        spec_point((z * height + y) * width + x, width, height) == (x, y, z),
{
    let i = (z * height + y) * width + x;
    vstd::arithmetic::div_mod::lemma_fundamental_div_mod_converse(i, width, z * height + y, x);
    vstd::arithmetic::div_mod::lemma_fundamental_div_mod_converse(z * height + y, height, z, y);
}

impl<V> VoxelMap<V> {
    /// A map of the given size whose values a function of the lattice
    /// point gives.
    pub fn with_func<F: Fn(usize, usize, usize) -> V>(
        width: usize,
        height: usize,
        depth: usize,
        f: F,
    ) -> (m: Self)
        requires
            width * height * depth <= usize::MAX,
            forall|x: usize, y: usize, z: usize|
                x < width && y < height && z < depth ==> f.requires((x, y, z)),
        ensures
            m.wf(),
            m.spec_width() == width,
            m.spec_height() == height,
            m.spec_depth() == depth,
            forall|x: int, y: int, z: int|
                m.has(x, y, z) ==> f.ensures(
                    (x as usize, y as usize, z as usize),
                    #[trigger] m.spec_at(x, y, z),
                ),
    {
        if width == 0 || height == 0 || depth == 0 {
            assert(width * height * depth == 0) by (nonlinear_arith)
                requires
                    width == 0 || height == 0 || depth == 0,
            ;
            return VoxelMap { width, height, depth, buffer: Vec::new() };
        }
        assert(width * height <= width * height * depth) by (nonlinear_arith)
            requires
                width >= 1,
                height >= 1,
                depth >= 1,
        ;
        let size = width * height * depth;
        let mut buffer: Vec<V> = Vec::new();
        let mut i: usize = 0;
        while i < size
            invariant
                width >= 1 && height >= 1 && depth >= 1,
                size == width * height * depth,
                i <= size,
                buffer@.len() == i,
                forall|x: usize, y: usize, z: usize|
                    x < width && y < height && z < depth ==> f.requires((x, y, z)),
                forall|j: int|
                    0 <= j < i ==> f.ensures(
                        (
                            spec_point(j, width as int, height as int).0 as usize,
                            spec_point(j, width as int, height as int).1 as usize,
                            spec_point(j, width as int, height as int).2 as usize,
                        ),
                        #[trigger] buffer@[j],
                    ),
            decreases size - i,
        {
            let x = i % width;
            let yz = i / width;
            let y = yz % height;
            let z = yz / height;
            proof {
                let (w, h, d) = (width as int, height as int, depth as int);
                assert(w * h * d == w * (h * d)) by (nonlinear_arith);
                vstd::arithmetic::div_mod::lemma_multiply_divide_lt(i as int, w, h * d);
                vstd::arithmetic::div_mod::lemma_multiply_divide_lt(yz as int, h, d);
            }
            let v = f(x, y, z);
            buffer.push(v);
            i = i + 1;
        }
        let m = VoxelMap { width, height, depth, buffer };
        proof {
            assert forall|x: int, y: int, z: int| m.has(x, y, z) implies f.ensures(
                (x as usize, y as usize, z as usize),
                #[trigger] m.spec_at(x, y, z),
            ) by {
                m.lemma_place(x, y, z);
                lemma_point_of_place(x, y, z, width as int, height as int);
            }
        }
        m
    }
}

impl<V: Copy> VoxelMap<V> {
    /// A map of the given size with one value at every lattice point.
    pub fn with_voxel(width: usize, height: usize, depth: usize, voxel: V) -> (m: Self)
        requires
            width * height * depth <= usize::MAX,
        ensures
            m.wf(),
            m.spec_width() == width,
            m.spec_height() == height,
            m.spec_depth() == depth,
            forall|i: int| 0 <= i < m.values().len() ==> m.values()[i] == voxel,
    {
        if width == 0 || height == 0 || depth == 0 {
            assert(width * height * depth == 0) by (nonlinear_arith)
                requires
                    width == 0 || height == 0 || depth == 0,
            ;
            return VoxelMap { width, height, depth, buffer: Vec::new() };
        }
        assert(width * height <= width * height * depth) by (nonlinear_arith)
            requires
                width >= 1,
                height >= 1,
                depth >= 1,
        ;
        let size = width * height * depth;
        let mut buffer: Vec<V> = Vec::new();
        let mut i: usize = 0;
        while i < size
            invariant
                i <= size,
                buffer@.len() == i,
                forall|j: int| 0 <= j < i ==> buffer@[j] == voxel,
            decreases size - i,
        {
            buffer.push(voxel);
            i = i + 1;
        }
        VoxelMap { width, height, depth, buffer }
    }

    /// The value at a lattice point; none in a map without a lattice point.
    pub fn index(&self, x: usize, y: usize, z: usize) -> (v: Option<V>)
        requires
            self.wf(),
            !self.is_empty() ==> self.has(x as int, y as int, z as int),
        ensures
            v == self.spec_index(x as int, y as int, z as int),
    {
        if self.width == 0 || self.height == 0 || self.depth == 0 {
            return None;
        }
        let len = self.buffer.len();
        proof {
            self.lemma_place(x as int, y as int, z as int);
            assert(z * self.height + y < len);
            assert((z * self.height + y) * self.width + x < len);
        }
        Some(self.buffer[(z * self.height + y) * self.width + x])
    }
}

impl<V: Copy + Interpolate> VoxelMap<V> {
    /// The value at a place, found in the given way; none in a map without
    /// a lattice point.
    pub open spec fn spec_sample(self, coord: (u32, u32, u32), mode: SamplingMode) -> Option<V> {
        let (w, h, d) = (self.spec_width(), self.spec_height(), self.spec_depth());
        match mode {
            SamplingMode::Nearest => self.spec_index(
                spec_round(coord.0, w),
                spec_round(coord.1, h),
                spec_round(coord.2, d),
            ),
            SamplingMode::Trilinear => {
                let (x0, x1) = (spec_floor(coord.0, w), spec_ceil(coord.0, w));
                let (y0, y1) = (spec_floor(coord.1, h), spec_ceil(coord.1, h));
                let (z0, z1) = (spec_floor(coord.2, d), spec_ceil(coord.2, d));
                let (fx, fy, fz) = (
                    spec_fract(coord.0, w) as u32,
                    spec_fract(coord.1, h) as u32,
                    spec_fract(coord.2, d) as u32,
                );
                let near = self.spec_index(x0, y0, z0).spec_lerp(self.spec_index(x1, y0, z0), fx)
                    .spec_lerp(
                    self.spec_index(x0, y1, z0).spec_lerp(self.spec_index(x1, y1, z0), fx),
                    fy,
                );
                let far = self.spec_index(x0, y0, z1).spec_lerp(self.spec_index(x1, y0, z1), fx)
                    .spec_lerp(
                    self.spec_index(x0, y1, z1).spec_lerp(self.spec_index(x1, y1, z1), fx),
                    fy,
                );
                near.spec_lerp(far, fz)
            },
        }
    }

    /// The value at a place of the map, found in the given way. A
    /// coordinate beyond `WEIGHT_ONE` counts as `WEIGHT_ONE`.
    pub fn sample(&self, coord: (u32, u32, u32), mode: SamplingMode) -> (v: Option<V>)
        requires
            self.wf(),
        ensures
            v == self.spec_sample(coord, mode),
    {
        if self.width == 0 || self.height == 0 || self.depth == 0 {
            return None;
        }
        proof {
            lemma_lattice_points(coord.0, self.width as int);
            lemma_lattice_points(coord.1, self.height as int);
            lemma_lattice_points(coord.2, self.depth as int);
        }
        let one = WEIGHT_ONE as u128;
        let sx = scaled(coord.0, self.width);
        let sy = scaled(coord.1, self.height);
        let sz = scaled(coord.2, self.depth);
        match mode {
            SamplingMode::Nearest => self.index(
                ((sx + one / 2) / one) as usize,
                ((sy + one / 2) / one) as usize,
                ((sz + one / 2) / one) as usize,
            ),
            SamplingMode::Trilinear => {
                let (x0, x1) = ((sx / one) as usize, ((sx + one - 1) / one) as usize);
                let (y0, y1) = ((sy / one) as usize, ((sy + one - 1) / one) as usize);
                let (z0, z1) = ((sz / one) as usize, ((sz + one - 1) / one) as usize);
                let (fx, fy, fz) = ((sx % one) as u32, (sy % one) as u32, (sz % one) as u32);
                let a = self.index(x0, y0, z0).lerp(self.index(x1, y0, z0), fx);
                let b = self.index(x0, y1, z0).lerp(self.index(x1, y1, z0), fx);
                let near = a.lerp(b, fy);
                let c = self.index(x0, y0, z1).lerp(self.index(x1, y0, z1), fx);
                let d = self.index(x0, y1, z1).lerp(self.index(x1, y1, z1), fx);
                let far = c.lerp(d, fy);
                near.lerp(far, fz)
            },
        }
    }
}

} // verus!
