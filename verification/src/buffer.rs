//! The accumulation buffer: a running sum of samples for every pixel, the
//! number of samples that went in, and the tiles that a render pass is split
//! into.
//!
//! A tile is a value of its own, with its own sums, so that the workers of a
//! pass share nothing. When the pass is over the tiles are merged into the
//! buffer.

use vstd::prelude::*;

verus! {

/// How accumulated values are turned into colours for display.
#[derive(Debug, Clone, Copy, PartialEq, Eq, Structural)]
pub enum ColorSpace {
    /// The values as they are.
    Raw,
    Normal,
    Linear,
    SRgb,
}

/// One sample for one pixel: three fixed-point channels.
#[derive(Debug, Clone, Copy, PartialEq, Eq, Structural)]
pub struct Sample {
    pub r: i32,
    pub g: i32,
    pub b: i32,
}

/// The running sum of the samples of one pixel.
#[derive(Debug, Clone, Copy, PartialEq, Eq, Structural)]
pub struct Pixel {
    pub r: i64,
    pub g: i64,
    pub b: i64,
}

impl Sample {
    pub fn new(r: i32, g: i32, b: i32) -> (s: Self)
        ensures
            s == (Sample { r, g, b }),
    {
        Sample { r, g, b }
    }

    /// The sample with one value in every channel.
    pub fn splat(x: i32) -> (s: Self)
        ensures
            s == (Sample { r: x, g: x, b: x }),
    {
        Sample { r: x, g: x, b: x }
    }
}

impl Pixel {
    /// The sum of no sample.
    pub open spec fn zero() -> Pixel {
        Pixel { r: 0, g: 0, b: 0 }
    }

    /// Whether one more sample can be added without leaving the range of
    /// the sums.
    pub open spec fn admits(self, s: Sample) -> bool {
        &&& i64::MIN <= self.r + s.r <= i64::MAX
        &&& i64::MIN <= self.g + s.g <= i64::MAX
        &&& i64::MIN <= self.b + s.b <= i64::MAX
    }

    /// The sum with one more sample.
    pub open spec fn plus(self, s: Sample) -> Pixel {
        Pixel { r: (self.r + s.r) as i64, g: (self.g + s.g) as i64, b: (self.b + s.b) as i64 }
    }

    /// Whether two sums can be added without leaving their range.
    pub open spec fn admits_sum(self, other: Pixel) -> bool {
        &&& i64::MIN <= self.r + other.r <= i64::MAX
        &&& i64::MIN <= self.g + other.g <= i64::MAX
        &&& i64::MIN <= self.b + other.b <= i64::MAX
    }

    /// The sum of two sums.
    pub open spec fn plus_sum(self, other: Pixel) -> Pixel {
        Pixel {
            r: (self.r + other.r) as i64,
            g: (self.g + other.g) as i64,
            b: (self.b + other.b) as i64,
        }
    }

    fn add_sample(self, s: Sample) -> (r: Option<Pixel>)
        ensures
            r == if self.admits(s) { Some(self.plus(s)) } else { None::<Pixel> },
    {
        match (self.r.checked_add(s.r as i64), self.g.checked_add(s.g as i64), self.b.checked_add(s.b as i64)) {
            (Some(r), Some(g), Some(b)) => Some(Pixel { r, g, b }),
            _ => None,
        }
    }

    fn add_sum(self, other: Pixel) -> (r: Option<Pixel>)
        ensures
            r == if self.admits_sum(other) { Some(self.plus_sum(other)) } else { None::<Pixel> },
    {
        match (self.r.checked_add(other.r), self.g.checked_add(other.g), self.b.checked_add(other.b)) {
            (Some(r), Some(g), Some(b)) => Some(Pixel { r, g, b }),
            _ => None,
        }
    }
}

/// A pixel of a grid has its place in the grid's row-major storage.
pub proof fn lemma_index_in_grid(x: int, y: int, width: int, height: int)
    requires
        0 <= x < width,
        0 <= y < height,
    ensures
        0 <= y * width + x < width * height,
        y * width >= 0,
{
    assert(y * width + x < width * height && y * width >= 0) by (nonlinear_arith)
        requires
            0 <= x < width,
            0 <= y < height,
    {
        assert((y + 1) * width <= height * width);
    }
}

/// Two pixels of a grid have their places apart.
pub proof fn lemma_index_injective(x1: int, y1: int, x2: int, y2: int, width: int)
    requires
        0 <= x1 < width,
        0 <= x2 < width,
        0 <= y1,
        0 <= y2,
        y1 * width + x1 == y2 * width + x2,
    ensures
        x1 == x2,
        y1 == y2,
{
    if y1 < y2 {
        assert((y1 + 1) * width <= y2 * width) by (nonlinear_arith)
            requires
                y1 + 1 <= y2,
                width > 0,
        ;
        assert((y1 + 1) * width == y1 * width + width) by (nonlinear_arith);
    } else if y2 < y1 {
        assert((y2 + 1) * width <= y1 * width) by (nonlinear_arith)
            requires
                y2 + 1 <= y1,
                width > 0,
        ;
        assert((y2 + 1) * width == y2 * width + width) by (nonlinear_arith);
    }
}

/// A smaller grid takes no more storage.
pub proof fn lemma_area_monotonic(w: int, h: int, width: int, height: int)
    requires
        0 <= w <= width,
        0 <= h <= height,
    ensures
        0 <= w * h <= width * height,
{
    assert(0 <= w * h <= width * height) by (nonlinear_arith)
        requires
            0 <= w <= width,
            0 <= h <= height,
    ;
}

fn zeros(n: usize) -> (v: Vec<Pixel>)
    ensures
        v@.len() == n,
        forall|i: int| 0 <= i < n ==> v@[i] == Pixel::zero(),
{
    let mut v: Vec<Pixel> = Vec::new();
    let mut i: usize = 0;
    while i < n
        invariant
            i <= n,
            v@.len() == i,
            forall|j: int| 0 <= j < i ==> v@[j] == Pixel::zero(),
        decreases n - i,
    {
        v.push(Pixel { r: 0, g: 0, b: 0 });
        i = i + 1;
    }
    v
}

/// A rectangular part of the image with sums of its own.
#[derive(Debug)]
pub struct Chunk {
    min_x: usize,
    min_y: usize,
    max_x: usize,
    max_y: usize,
    sums: Vec<Pixel>,
}

impl Chunk {
    /// The first column of the tile.
    pub closed spec fn spec_min_x(self) -> int {
        self.min_x as int
    }

    /// The first row of the tile.
    pub closed spec fn spec_min_y(self) -> int {
        self.min_y as int
    }

    /// The column after the last one of the tile.
    pub closed spec fn spec_max_x(self) -> int {
        self.max_x as int
    }

    /// The row after the last one of the tile.
    pub closed spec fn spec_max_y(self) -> int {
        self.max_y as int
    }

    /// The tile has as many sums as pixels.
    pub closed spec fn wf(self) -> bool {
        &&& self.min_x <= self.max_x
        &&& self.min_y <= self.max_y
        &&& self.sums@.len() == (self.max_x - self.min_x) * (self.max_y - self.min_y)
    }

    /// Whether the pixel belongs to the tile.
    pub open spec fn covers(self, x: int, y: int) -> bool {
        self.spec_min_x() <= x < self.spec_max_x() && self.spec_min_y() <= y < self.spec_max_y()
    }

    /// The sum that the tile holds for one of its pixels.
    pub closed spec fn spec_sum(self, x: int, y: int) -> Pixel {
        self.sums@[(y - self.min_y) * (self.max_x - self.min_x) + (x - self.min_x)]
    }

    /// Every sum of the tile is zero.
    pub open spec fn is_blank(self) -> bool {
        forall|x: int, y: int| self.covers(x, y) ==> #[trigger] self.spec_sum(x, y) == Pixel::zero()
    }

    /// The two tiles are the same but for the sum of one pixel.
    pub open spec fn same_but(self, other: Chunk, x: int, y: int) -> bool {
        &&& self.spec_min_x() == other.spec_min_x()
        &&& self.spec_min_y() == other.spec_min_y()
        &&& self.spec_max_x() == other.spec_max_x()
        &&& self.spec_max_y() == other.spec_max_y()
        &&& forall|u: int, v: int|
            self.covers(u, v) && !(u == x && v == y) ==> #[trigger] self.spec_sum(u, v)
                == other.spec_sum(u, v)
    }

    fn blank(min_x: usize, min_y: usize, max_x: usize, max_y: usize) -> (c: Self)
        requires
            min_x <= max_x,
            min_y <= max_y,
            (max_x - min_x) * (max_y - min_y) <= usize::MAX,
        ensures
            c.wf(),
            c.is_blank(),
            c.spec_min_x() == min_x,
            c.spec_min_y() == min_y,
            c.spec_max_x() == max_x,
            c.spec_max_y() == max_y,
    {
        let sums = zeros((max_x - min_x) * (max_y - min_y));
        let c = Chunk { min_x, min_y, max_x, max_y, sums };
        proof {
            assert forall|x: int, y: int| c.covers(x, y) implies #[trigger] c.spec_sum(x, y)
                == Pixel::zero() by {
                lemma_index_in_grid(x - min_x, y - min_y, max_x - min_x, max_y - min_y);
            }
        }
        c
    }

    /// The number of pixels.
    pub fn pixel_count(&self) -> (n: usize)
        requires
            self.wf(),
        ensures
            n == (self.spec_max_x() - self.spec_min_x()) * (self.spec_max_y() - self.spec_min_y()),
            self.spec_min_x() <= self.spec_max_x() <= usize::MAX,
            self.spec_min_y() <= self.spec_max_y() <= usize::MAX,
    {
        self.sums.len()
    }

    /// The number of columns.
    pub fn chunk_width(&self) -> (w: usize)
        requires
            self.wf(),
        ensures
            w == self.spec_max_x() - self.spec_min_x(),
    {
        self.max_x - self.min_x
    }

    /// The number of rows.
    pub fn chunk_height(&self) -> (h: usize)
        requires
            self.wf(),
        ensures
            h == self.spec_max_y() - self.spec_min_y(),
    {
        self.max_y - self.min_y
    }

    /// The columns of the tile: the first one, and the one after the last.
    pub fn range_x(&self) -> (r: (usize, usize))
        ensures
            r.0 == self.spec_min_x(),
            r.1 == self.spec_max_x(),
    {
        (self.min_x, self.max_x)
    }

    /// The rows of the tile: the first one, and the one after the last.
    pub fn range_y(&self) -> (r: (usize, usize))
        ensures
            r.0 == self.spec_min_y(),
            r.1 == self.spec_max_y(),
    {
        (self.min_y, self.max_y)
    }

    /// The sum of one pixel of the tile.
    pub fn sum(&self, x: usize, y: usize) -> (p: Pixel)
        requires
            self.wf(),
            self.covers(x as int, y as int),
        ensures
            p == self.spec_sum(x as int, y as int),
    {
        let w = self.max_x - self.min_x;
        let len = self.sums.len();
        proof {
            lemma_index_in_grid(x - self.min_x, y - self.min_y, w as int, self.max_y - self.min_y);
            assert(self.sums@.len() == w * (self.max_y - self.min_y));
            assert(0 <= (y - self.min_y) * w <= (y - self.min_y) * w + (x - self.min_x) < len);
        }
        self.sums[(y - self.min_y) * w + (x - self.min_x)]
    }

    fn add(&mut self, x: usize, y: usize, s: Sample) -> (done: bool)
        requires
            old(self).wf(),
            old(self).covers(x as int, y as int),
        ensures
            final(self).wf(),
            final(self).same_but(*old(self), x as int, y as int),
            done == old(self).spec_sum(x as int, y as int).admits(s),
            final(self).spec_sum(x as int, y as int) == if done {
                old(self).spec_sum(x as int, y as int).plus(s)
            } else {
                old(self).spec_sum(x as int, y as int)
            },
    {
        let w = self.max_x - self.min_x;
        let len = self.sums.len();
        proof {
            lemma_index_in_grid(x - self.min_x, y - self.min_y, w as int, self.max_y - self.min_y);
            assert(self.sums@.len() == w * (self.max_y - self.min_y));
            assert(0 <= (y - self.min_y) * w <= (y - self.min_y) * w + (x - self.min_x) < len);
        }
        let i = (y - self.min_y) * w + (x - self.min_x);
        match self.sums[i].add_sample(s) {
            None => false,
            Some(p) => {
                self.sums.set(i, p);
                proof {
                    assert forall|u: int, v: int|
                        self.covers(u, v) && !(u == x && v == y) implies #[trigger] self.spec_sum(
                        u,
                        v,
                    ) == old(self).spec_sum(u, v) by {
                        lemma_index_in_grid(
                            u - self.min_x,
                            v - self.min_y,
                            w as int,
                            self.max_y - self.min_y,
                        );
                        if (v - self.min_y) * w + (u - self.min_x) == i {
                            lemma_index_injective(
                                u - self.min_x,
                                v - self.min_y,
                                x - self.min_x,
                                y - self.min_y,
                                w as int,
                            );
                        }
                    }
                }
                true
            },
        }
    }

    /// Adds a colour sample to a pixel of the tile. Where a sum would leave
    /// its range nothing is added, and the result is `false`.
    pub fn write_color(&mut self, x: usize, y: usize, pixel: Sample) -> (done: bool)
        requires
            old(self).wf(),
            old(self).covers(x as int, y as int),
        ensures
            final(self).wf(),
            final(self).same_but(*old(self), x as int, y as int),
            done == old(self).spec_sum(x as int, y as int).admits(pixel),
            final(self).spec_sum(x as int, y as int) == if done {
                old(self).spec_sum(x as int, y as int).plus(pixel)
            } else {
                old(self).spec_sum(x as int, y as int)
            },
    {
        self.add(x, y, pixel)
    }

    /// Adds the three components of a surface normal to a pixel of the
    /// tile, as `write_color` adds the channels of a colour.
    pub fn write_normal(&mut self, x: usize, y: usize, pixel: crate::geometry::Point3) -> (done:
        bool)
        requires
            old(self).wf(),
            old(self).covers(x as int, y as int),
        ensures
            final(self).wf(),
            final(self).same_but(*old(self), x as int, y as int),
            done == old(self).spec_sum(x as int, y as int).admits(
                Sample { r: pixel.x, g: pixel.y, b: pixel.z },
            ),
            final(self).spec_sum(x as int, y as int) == if done {
                old(self).spec_sum(x as int, y as int).plus(
                    Sample { r: pixel.x, g: pixel.y, b: pixel.z },
                )
            } else {
                old(self).spec_sum(x as int, y as int)
            },
    {
        self.add(x, y, Sample { r: pixel.x, g: pixel.y, b: pixel.z })
    }

    /// Adds a depth to every channel of a pixel of the tile, as
    /// `write_color` adds the channels of a colour.
    pub fn write_depth(&mut self, x: usize, y: usize, pixel: i32) -> (done: bool)
        requires
            old(self).wf(),
            old(self).covers(x as int, y as int),
        ensures
            final(self).wf(),
            final(self).same_but(*old(self), x as int, y as int),
            done == old(self).spec_sum(x as int, y as int).admits(
                Sample { r: pixel, g: pixel, b: pixel },
            ),
            final(self).spec_sum(x as int, y as int) == if done {
                old(self).spec_sum(x as int, y as int).plus(Sample { r: pixel, g: pixel, b: pixel })
            } else {
                old(self).spec_sum(x as int, y as int)
            },
    {
        self.add(x, y, Sample { r: pixel, g: pixel, b: pixel })
    }
}

/// The accumulation buffer of an image.
#[derive(Debug)]
pub struct Buffer {
    samples: usize,
    width: usize,
    height: usize,
    sums: Vec<Pixel>,
    color_space: ColorSpace,
}

/// `a / b`, rounded up.
pub open spec fn ceil_div(a: int, b: int) -> int
    recommends
        b > 0,
{
    if a % b == 0 {
        a / b
    } else {
        a / b + 1
    }
}

impl Buffer {
    /// The number of columns.
    pub closed spec fn spec_width(self) -> int {
        self.width as int
    }

    /// The number of rows.
    pub closed spec fn spec_height(self) -> int {
        self.height as int
    }

    /// The number of samples that every sum holds.
    pub closed spec fn spec_samples(self) -> int {
        self.samples as int
    }

    /// How the sums are to be displayed.
    pub closed spec fn spec_color_space(self) -> ColorSpace {
        self.color_space
    }

    /// The running sum of one pixel.
    pub closed spec fn spec_sum(self, x: int, y: int) -> Pixel {
        self.sums@[y * self.width + x]
    }

    /// There is one sum for every pixel.
    pub closed spec fn wf(self) -> bool {
        &&& self.sums@.len() == self.width * self.height
        &&& self.width * self.height <= usize::MAX
    }

    /// Whether the pixel belongs to the image.
    pub open spec fn in_bounds(self, x: int, y: int) -> bool {
        0 <= x < self.spec_width() && 0 <= y < self.spec_height()
    }

    /// Whether the tile lies inside the image.
    pub open spec fn holds(self, chunk: Chunk) -> bool {
        &&& 0 <= chunk.spec_min_x() <= chunk.spec_max_x() <= self.spec_width()
        &&& 0 <= chunk.spec_min_y() <= chunk.spec_max_y() <= self.spec_height()
    }

    /// Every sum is zero.
    pub open spec fn is_blank(self) -> bool {
        forall|x: int, y: int|
            self.in_bounds(x, y) ==> #[trigger] self.spec_sum(x, y) == Pixel::zero()
    }

    /// The two buffers have the same size, colour space and number of
    /// samples.
    pub open spec fn same_frame(self, other: Buffer) -> bool {
        &&& self.spec_width() == other.spec_width()
        &&& self.spec_height() == other.spec_height()
        &&& self.spec_samples() == other.spec_samples()
        &&& self.spec_color_space() == other.spec_color_space()
    }

    /// The two buffers hold the same sums.
    pub open spec fn same_sums(self, other: Buffer) -> bool {
        forall|x: int, y: int|
            self.in_bounds(x, y) ==> #[trigger] self.spec_sum(x, y) == other.spec_sum(x, y)
    }

    /// The two buffers are the same but for the sum of one pixel.
    pub open spec fn same_but(self, other: Buffer, x: int, y: int) -> bool {
        &&& self.same_frame(other)
        &&& forall|u: int, v: int|
            self.in_bounds(u, v) && !(u == x && v == y) ==> #[trigger] self.spec_sum(u, v)
                == other.spec_sum(u, v)
    }

    /// Every sum of the tile can be added to the sum that the buffer holds
    /// for the same pixel.
    pub open spec fn admits_chunk(self, chunk: Chunk) -> bool {
        forall|x: int, y: int|
            chunk.covers(x, y) ==> (#[trigger] self.spec_sum(x, y)).admits_sum(
                chunk.spec_sum(x, y),
            )
    }

    /// The sums of `self` are those of `before` with the sums of the tile
    /// added for the pixels of the tile.
    pub open spec fn merged_from(self, before: Buffer, chunk: Chunk) -> bool {
        forall|x: int, y: int|
            self.in_bounds(x, y) ==> #[trigger] self.spec_sum(x, y) == if chunk.covers(x, y) {
                before.spec_sum(x, y).plus_sum(chunk.spec_sum(x, y))
            } else {
                before.spec_sum(x, y)
            }
    }

    /// A buffer of the given size without a sample.
    pub fn new(width: usize, height: usize, color_space: ColorSpace) -> (b: Self)
        requires
            width * height <= usize::MAX,
        ensures
            b.wf(),
            b.spec_width() == width,
            b.spec_height() == height,
            b.spec_samples() == 0,
            b.spec_color_space() == color_space,
            b.is_blank(),
    {
        let sums = zeros(width * height);
        let b = Buffer { samples: 0, width, height, sums, color_space };
        proof {
            assert forall|x: int, y: int| b.in_bounds(x, y) implies #[trigger] b.spec_sum(x, y)
                == Pixel::zero() by {
                lemma_index_in_grid(x, y, width as int, height as int);
            }
        }
        b
    }

    /// The number of columns.
    pub fn width(&self) -> (w: usize)
        ensures
            w == self.spec_width(),
    {
        self.width
    }

    /// The number of rows.
    pub fn height(&self) -> (h: usize)
        ensures
            h == self.spec_height(),
    {
        self.height
    }

    /// The number of columns and of rows.
    pub fn dimensions(&self) -> (d: (usize, usize))
        ensures
            d.0 == self.spec_width(),
            d.1 == self.spec_height(),
    {
        (self.width, self.height)
    }

    /// The number of samples that every sum holds.
    pub fn samples(&self) -> (n: usize)
        ensures
            n == self.spec_samples(),
    {
        self.samples
    }

    /// How the sums are to be displayed.
    pub fn color_space(&self) -> (c: ColorSpace)
        ensures
            c == self.spec_color_space(),
    {
        self.color_space
    }

    /// The running sum of one pixel.
    pub fn sum(&self, x: usize, y: usize) -> (p: Pixel)
        requires
            self.wf(),
            self.in_bounds(x as int, y as int),
        ensures
            p == self.spec_sum(x as int, y as int),
    {
        let len = self.sums.len();
        proof {
            lemma_index_in_grid(x as int, y as int, self.width as int, self.height as int);
            assert(0 <= y * self.width <= y * self.width + x < len);
        }
        self.sums[y * self.width + x]
    }

    /// Takes every sample out again.
    pub fn clear(&mut self)
        requires
            old(self).wf(),
        ensures
            final(self).wf(),
            final(self).spec_width() == old(self).spec_width(),
            final(self).spec_height() == old(self).spec_height(),
            final(self).spec_color_space() == old(self).spec_color_space(),
            final(self).spec_samples() == 0,
            final(self).is_blank(),
    {
        let len = self.sums.len();
        self.sums = zeros(len);
        self.samples = 0;
        proof {
            assert forall|x: int, y: int| self.in_bounds(x, y) implies #[trigger] self.spec_sum(
                x,
                y,
            ) == Pixel::zero() by {
                lemma_index_in_grid(x, y, self.width as int, self.height as int);
            }
        }
    }

    /// Gives the buffer another size, and takes every sample out.
    pub fn resize(&mut self, width: usize, height: usize)
        requires
            width * height <= usize::MAX,
        ensures
            final(self).wf(),
            final(self).spec_width() == width,
            final(self).spec_height() == height,
            final(self).spec_color_space() == old(self).spec_color_space(),
            final(self).spec_samples() == 0,
            final(self).is_blank(),
    {
        self.width = width;
        self.height = height;
        self.sums = zeros(width * height);
        self.samples = 0;
        proof {
            assert forall|x: int, y: int| self.in_bounds(x, y) implies #[trigger] self.spec_sum(
                x,
                y,
            ) == Pixel::zero() by {
                lemma_index_in_grid(x, y, width as int, height as int);
            }
        }
    }

    /// Counts the samples of a pass. Where the count would leave its range
    /// it stays as it is, and the result is `false`.
    pub fn inc_samples(&mut self, samples: usize) -> (done: bool)
        ensures
            final(self).wf() == old(self).wf(),
            final(self).spec_width() == old(self).spec_width(),
            final(self).spec_height() == old(self).spec_height(),
            final(self).spec_color_space() == old(self).spec_color_space(),
            final(self).same_sums(*old(self)),
            done == (old(self).spec_samples() + samples <= usize::MAX),
            final(self).spec_samples() == if done {
                old(self).spec_samples() + samples
            } else {
                old(self).spec_samples()
            },
    {
        match self.samples.checked_add(samples) {
            None => false,
            Some(n) => {
                self.samples = n;
                true
            },
        }
    }

    fn put(&mut self, x: usize, y: usize, p: Pixel)
        requires
            old(self).wf(),
            old(self).in_bounds(x as int, y as int),
        ensures
            final(self).wf(),
            final(self).same_but(*old(self), x as int, y as int),
            final(self).spec_sum(x as int, y as int) == p,
    {
        let len = self.sums.len();
        let w = self.width;
        proof {
            lemma_index_in_grid(x as int, y as int, w as int, self.height as int);
            assert(0 <= y * w <= y * w + x < len);
        }
        let i = y * w + x;
        self.sums.set(i, p);
        proof {
            assert forall|u: int, v: int|
                self.in_bounds(u, v) && !(u == x && v == y) implies #[trigger] self.spec_sum(u, v)
                == old(self).spec_sum(u, v) by {
                lemma_index_in_grid(u, v, w as int, self.height as int);
                if v * w + u == i {
                    lemma_index_injective(u, v, x as int, y as int, w as int);
                }
            }
        }
    }

    fn add(&mut self, x: usize, y: usize, s: Sample) -> (done: bool)
        requires
            old(self).wf(),
            old(self).in_bounds(x as int, y as int),
        ensures
            final(self).wf(),
            final(self).same_but(*old(self), x as int, y as int),
            done == old(self).spec_sum(x as int, y as int).admits(s),
            final(self).spec_sum(x as int, y as int) == if done {
                old(self).spec_sum(x as int, y as int).plus(s)
            } else {
                old(self).spec_sum(x as int, y as int)
            },
    {
        match self.sum(x, y).add_sample(s) {
            None => false,
            Some(p) => {
                self.put(x, y, p);
                true
            },
        }
    }

    /// Adds a colour sample to a pixel. Where a sum would leave its range
    /// nothing is added, and the result is `false`.
    pub fn write_color(&mut self, x: usize, y: usize, pixel: Sample) -> (done: bool)
        requires
            old(self).wf(),
            old(self).in_bounds(x as int, y as int),
        ensures
            final(self).wf(),
            final(self).same_but(*old(self), x as int, y as int),
            done == old(self).spec_sum(x as int, y as int).admits(pixel),
            final(self).spec_sum(x as int, y as int) == if done {
                old(self).spec_sum(x as int, y as int).plus(pixel)
            } else {
                old(self).spec_sum(x as int, y as int)
            },
    {
        self.add(x, y, pixel)
    }

    /// Adds the three components of a surface normal to a pixel, as
    /// `write_color` adds the channels of a colour.
    pub fn write_normal(&mut self, x: usize, y: usize, pixel: crate::geometry::Point3) -> (done:
        bool)
        requires
            old(self).wf(),
            old(self).in_bounds(x as int, y as int),
        ensures
            final(self).wf(),
            final(self).same_but(*old(self), x as int, y as int),
            done == old(self).spec_sum(x as int, y as int).admits(
                Sample { r: pixel.x, g: pixel.y, b: pixel.z },
            ),
            final(self).spec_sum(x as int, y as int) == if done {
                old(self).spec_sum(x as int, y as int).plus(
                    Sample { r: pixel.x, g: pixel.y, b: pixel.z },
                )
            } else {
                old(self).spec_sum(x as int, y as int)
            },
    {
        self.add(x, y, Sample { r: pixel.x, g: pixel.y, b: pixel.z })
    }

    /// Adds a depth to every channel of a pixel, as `write_color` adds the
    /// channels of a colour.
    pub fn write_depth(&mut self, x: usize, y: usize, pixel: i32) -> (done: bool)
        requires
            old(self).wf(),
            old(self).in_bounds(x as int, y as int),
        ensures
            final(self).wf(),
            final(self).same_but(*old(self), x as int, y as int),
            done == old(self).spec_sum(x as int, y as int).admits(
                Sample { r: pixel, g: pixel, b: pixel },
            ),
            final(self).spec_sum(x as int, y as int) == if done {
                old(self).spec_sum(x as int, y as int).plus(Sample { r: pixel, g: pixel, b: pixel })
            } else {
                old(self).spec_sum(x as int, y as int)
            },
    {
        self.add(x, y, Sample { r: pixel, g: pixel, b: pixel })
    }
}

impl Buffer {
    /// The sums of `self` are those of `before` with the sums of the tile
    /// added for the pixels of the tile that come before `(x, y)` in
    /// row-major order.
    pub open spec fn merged_up_to(self, before: Buffer, chunk: Chunk, x: int, y: int) -> bool {
        forall|u: int, v: int|
            self.in_bounds(u, v) ==> #[trigger] self.spec_sum(u, v) == if chunk.covers(u, v) && (v
                < y || (v == y && u < x)) {
                before.spec_sum(u, v).plus_sum(chunk.spec_sum(u, v))
            } else {
                before.spec_sum(u, v)
            }
    }

    /// Whether every sum of the tile can be added to the buffer.
    pub fn fits(&self, chunk: &Chunk) -> (b: bool)
        requires
            self.wf(),
            chunk.wf(),
            self.holds(*chunk),
        ensures
            b == self.admits_chunk(*chunk),
    {
        let (x0, x1) = chunk.range_x();
        let (y0, y1) = chunk.range_y();
        let mut y = y0;
        while y < y1
            invariant
                self.wf(),
                chunk.wf(),
                self.holds(*chunk),
                x0 == chunk.spec_min_x() && x1 == chunk.spec_max_x(),
                y0 == chunk.spec_min_y() && y1 == chunk.spec_max_y(),
                y0 <= y <= y1,
                forall|u: int, v: int|
                    chunk.covers(u, v) && v < y ==> (#[trigger] self.spec_sum(u, v)).admits_sum(
                        chunk.spec_sum(u, v),
                    ),
            decreases y1 - y,
        {
            let mut x = x0;
            while x < x1
                invariant
                    self.wf(),
                    chunk.wf(),
                    self.holds(*chunk),
                    x0 == chunk.spec_min_x() && x1 == chunk.spec_max_x(),
                    y0 == chunk.spec_min_y() && y1 == chunk.spec_max_y(),
                    y0 <= y < y1,
                    x0 <= x <= x1,
                    forall|u: int, v: int|
                        chunk.covers(u, v) && (v < y || (v == y && u < x)) ==> (
                        #[trigger] self.spec_sum(u, v)).admits_sum(chunk.spec_sum(u, v)),
                decreases x1 - x,
            {
                if self.sum(x, y).add_sum(chunk.sum(x, y)).is_none() {
                    assert(chunk.covers(x as int, y as int));
                    return false;
                }
                x = x + 1;
            }
            y = y + 1;
        }
        true
    }

    /// Adds the sums of a tile to the sums of the buffer. Where one of the
    /// sums would leave its range nothing is added at all, and the result
    /// is `false`.
    pub fn merge(&mut self, chunk: &Chunk) -> (done: bool)
        requires
            old(self).wf(),
            chunk.wf(),
            old(self).holds(*chunk),
        ensures
            final(self).wf(),
            final(self).same_frame(*old(self)),
            done == old(self).admits_chunk(*chunk),
            done ==> final(self).merged_from(*old(self), *chunk),
            !done ==> final(self).same_sums(*old(self)),
    {
        if !self.fits(chunk) {
            return false;
        }
        let (x0, x1) = chunk.range_x();
        let (y0, y1) = chunk.range_y();
        let mut y = y0;
        while y < y1
            invariant
                self.wf(),
                chunk.wf(),
                self.same_frame(*old(self)),
                old(self).holds(*chunk),
                old(self).admits_chunk(*chunk),
                x0 == chunk.spec_min_x() && x1 == chunk.spec_max_x(),
                y0 == chunk.spec_min_y() && y1 == chunk.spec_max_y(),
                y0 <= y <= y1,
                self.merged_up_to(*old(self), *chunk, x0 as int, y as int),
            decreases y1 - y,
        {
            let mut x = x0;
            while x < x1
                invariant
                    self.wf(),
                    chunk.wf(),
                    self.same_frame(*old(self)),
                    old(self).holds(*chunk),
                    old(self).admits_chunk(*chunk),
                    x0 == chunk.spec_min_x() && x1 == chunk.spec_max_x(),
                    y0 == chunk.spec_min_y() && y1 == chunk.spec_max_y(),
                    y0 <= y < y1,
                    x0 <= x <= x1,
                    self.merged_up_to(*old(self), *chunk, x as int, y as int),
                decreases x1 - x,
            {
                let ghost mid = *self;
                assert(chunk.covers(x as int, y as int));
                assert(self.spec_sum(x as int, y as int) == old(self).spec_sum(x as int, y as int));
                assert(old(self).spec_sum(x as int, y as int).admits_sum(
                    chunk.spec_sum(x as int, y as int),
                ));
                let p = self.sum(x, y).add_sum(chunk.sum(x, y));
                self.put(x, y, p.unwrap());
                x = x + 1;
                proof {
                    assert forall|u: int, v: int| self.in_bounds(u, v) implies #[trigger] self.spec_sum(
                        u,
                        v,
                    ) == if chunk.covers(u, v) && (v < y || (v == y && u < x)) {
                        old(self).spec_sum(u, v).plus_sum(chunk.spec_sum(u, v))
                    } else {
                        old(self).spec_sum(u, v)
                    } by {
                        if !(u == x - 1 && v == y) {
                            assert(self.spec_sum(u, v) == mid.spec_sum(u, v));
                        }
                    }
                }
            }
            y = y + 1;
            proof {
                assert forall|u: int, v: int| self.in_bounds(u, v) implies #[trigger] self.spec_sum(
                    u,
                    v,
                ) == if chunk.covers(u, v) && (v < y || (v == y && u < x0)) {
                    old(self).spec_sum(u, v).plus_sum(chunk.spec_sum(u, v))
                } else {
                    old(self).spec_sum(u, v)
                } by {}
            }
        }
        true
    }
}

/// A rectangle of pixels: the first column and row, and the column and row
/// after the last.
pub struct Tile {
    pub min_x: int,
    pub min_y: int,
    pub max_x: int,
    pub max_y: int,
}

/// How far a walk over the tiles of an image has come.
pub struct Tiling {
    pub done: bool,
    pub offset_x: int,
    pub offset_y: int,
    pub chunk_width: int,
    pub chunk_height: int,
    pub width: int,
    pub height: int,
}

impl Tiling {
    /// The walk before its first tile.
    pub open spec fn start(width: int, height: int, chunk_width: int, chunk_height: int) -> Tiling {
        Tiling { done: false, offset_x: 0, offset_y: 0, chunk_width, chunk_height, width, height }
    }

    /// A tile of an image with pixels has pixels, and the next tile starts
    /// inside the image.
    pub open spec fn wf(self) -> bool {
        &&& 0 <= self.width && 0 <= self.height
        &&& 0 <= self.chunk_width && 0 <= self.chunk_height
        &&& self.width > 0 ==> self.chunk_width > 0
        &&& self.height > 0 ==> self.chunk_height > 0
        &&& !self.done ==> {
            &&& 0 <= self.offset_x <= self.width
            &&& 0 <= self.offset_y <= self.height
            &&& self.width > 0 ==> self.offset_x < self.width
            &&& self.height > 0 ==> self.offset_y < self.height
        }
    }

    /// The number of columns of the next tile: those of a whole tile, or
    /// those that are left of the image.
    pub open spec fn tile_width(self) -> int {
        if self.chunk_width <= self.width - self.offset_x {
            self.chunk_width
        } else {
            self.width - self.offset_x
        }
    }

    /// The number of rows of the next tile: those of a whole tile, or those
    /// that are left of the image.
    pub open spec fn tile_height(self) -> int {
        if self.chunk_height <= self.height - self.offset_y {
            self.chunk_height
        } else {
            self.height - self.offset_y
        }
    }

    /// The next tile.
    pub open spec fn tile(self) -> Tile {
        Tile {
            min_x: self.offset_x,
            min_y: self.offset_y,
            max_x: self.offset_x + self.tile_width(),
            max_y: self.offset_y + self.tile_height(),
        }
    }

    /// The walk after the next tile: on to the right, at the end of a row
    /// to the start of the row below, and done after the last row.
    pub open spec fn step(self) -> Tiling {
        let x = self.offset_x + self.tile_width();
        let (x, y) = if x == self.width {
            (0, self.offset_y + self.tile_height())
        } else {
            (x, self.offset_y)
        };
        Tiling { done: y == self.height, offset_x: x, offset_y: y, ..self }
    }

    /// A bound on the number of tiles that are still to come.
    pub open spec fn left(self) -> nat {
        if self.done || !self.wf() {
            0
        } else {
            ((self.height - self.offset_y) * (self.width + 1) + (self.width - self.offset_x)
                + 1) as nat
        }
    }

    /// The tiles that are still to come, in their order.
    pub open spec fn rest(self) -> Seq<Tile>
        decreases self.left(),
        when self.wf()
        via Self::rest_terminates
    {
        if self.done {
            Seq::empty()
        } else {
            seq![self.tile()] + self.step().rest()
        }
    }

    #[via_fn]
    proof fn rest_terminates(self) {
        if !self.done {
            self.lemma_step();
        }
    }

    /// The pixels that no tile so far holds.
    pub open spec fn remaining(self) -> Set<(int, int)> {
        Set::new(
            |p: (int, int)|
                !self.done && 0 <= p.0 < self.width && 0 <= p.1 < self.height && (p.1
                    >= self.offset_y + self.tile_height() || (p.1 >= self.offset_y && p.0
                    >= self.offset_x)),
        )
    }

    /// One step of the walk: the next tile lies inside the image and is
    /// made of pixels that no earlier tile holds, after it exactly those
    /// pixels are left that it does not hold, and fewer tiles are to come.
    pub proof fn lemma_step(self)
        requires
            self.wf(),
            !self.done,
        ensures
            self.step().wf(),
            self.step().left() < self.left(),
            0 <= self.tile().min_x <= self.tile().max_x <= self.width,
            0 <= self.tile().min_y <= self.tile().max_y <= self.height,
            self.tile().pixels().subset_of(self.remaining()),
            self.step().remaining() == self.remaining().difference(self.tile().pixels()),
    {
        let next = self.step();
        let (h, w) = (self.height, self.width);
        let (oy0, oy1) = (self.offset_y, next.offset_y);
        assert((h - oy0) * (w + 1) >= 0) by (nonlinear_arith)
            requires
                h - oy0 >= 0,
                w >= 0,
        ;
        if oy1 > oy0 {
            assert((h - oy1) * (w + 1) + (w + 1) <= (h - oy0) * (w + 1)) by (nonlinear_arith)
                requires
                    oy1 >= oy0 + 1,
                    w >= 0,
            ;
            assert((h - oy1) * (w + 1) >= 0) by (nonlinear_arith)
                requires
                    h - oy1 >= 0,
                    w >= 0,
            ;
        }
        assert(next.remaining() =~= self.remaining().difference(self.tile().pixels()));
    }

    /// The walk starts with every pixel of the image left.
    pub proof fn lemma_start(width: int, height: int, chunk_width: int, chunk_height: int)
        requires
            0 <= width && 0 <= height,
            0 <= chunk_width && 0 <= chunk_height,
            width > 0 ==> chunk_width > 0,
            height > 0 ==> chunk_height > 0,
        ensures
            Self::start(width, height, chunk_width, chunk_height).wf(),
            Self::start(width, height, chunk_width, chunk_height).remaining() == Set::new(
                |p: (int, int)| 0 <= p.0 < width && 0 <= p.1 < height,
            ),
    {
        let t = Self::start(width, height, chunk_width, chunk_height);
        assert(t.remaining() =~= Set::new(|p: (int, int)| 0 <= p.0 < width && 0 <= p.1 < height));
    }

    /// When the walk is done no pixel is left.
    pub proof fn lemma_done(self)
        requires
            self.done,
        ensures
            self.remaining() == Set::<(int, int)>::empty(),
            self.rest() == Seq::<Tile>::empty() || !self.wf(),
    {
        assert(self.remaining() =~= Set::<(int, int)>::empty());
    }
}

impl Tile {
    /// The pixels of the tile.
    pub open spec fn pixels(self) -> Set<(int, int)> {
        Set::new(|p: (int, int)| self.min_x <= p.0 < self.max_x && self.min_y <= p.1 < self.max_y)
    }
}

/// The tiles of an image, one after the other: row by row, and in a row
/// from left to right.
#[derive(Debug)]
pub struct Chunks {
    done: bool,
    offset_x: usize,
    offset_y: usize,
    chunk_width: usize,
    chunk_height: usize,
    width: usize,
    height: usize,
}

impl Chunk {
    /// The rectangle of the tile.
    pub open spec fn bounds(self) -> Tile {
        Tile {
            min_x: self.spec_min_x(),
            min_y: self.spec_min_y(),
            max_x: self.spec_max_x(),
            max_y: self.spec_max_y(),
        }
    }

    /// The pixels of the tile.
    pub open spec fn pixels(self) -> Set<(int, int)> {
        Set::new(|p: (int, int)| self.covers(p.0, p.1))
    }
}

/// The rectangles of the tiles.
pub open spec fn bounds_of(tiles: Seq<Chunk>) -> Seq<Tile> {
    Seq::new(tiles.len(), |k: int| tiles[k].bounds())
}

impl Buffer {
    /// The pixels of the image.
    pub open spec fn pixels(self) -> Set<(int, int)> {
        Set::new(|p: (int, int)| self.in_bounds(p.0, p.1))
    }

    /// The walk over the tiles of a grid of `chunks_x` by `chunks_y` tiles
    /// of one size, as it starts.
    pub open spec fn spec_chunks(self, chunks_x: int, chunks_y: int) -> Tiling {
        Tiling::start(
            self.spec_width(),
            self.spec_height(),
            ceil_div(self.spec_width(), chunks_x),
            ceil_div(self.spec_height(), chunks_y),
        )
    }

    /// The tiles of a grid of `chunks_x` by `chunks_y` tiles of one size,
    /// those of the last column and the last row cut off at the border.
    pub fn chunks(&self, chunks_x: usize, chunks_y: usize) -> (c: Chunks)
        requires
            self.wf(),
            chunks_x > 0,
            chunks_y > 0,
        ensures
            c.wf(),
            c.tiling() == self.spec_chunks(chunks_x as int, chunks_y as int),
            c.tiling().remaining() == self.pixels(),
    {
        let chunk_width = if self.width % chunks_x == 0 {
            self.width / chunks_x
        } else {
            assert(self.width / chunks_x < self.width) by (nonlinear_arith)
                requires
                    self.width % chunks_x != 0,
                    chunks_x > 0,
            ;
            self.width / chunks_x + 1
        };
        let chunk_height = if self.height % chunks_y == 0 {
            self.height / chunks_y
        } else {
            assert(self.height / chunks_y < self.height) by (nonlinear_arith)
                requires
                    self.height % chunks_y != 0,
                    chunks_y > 0,
            ;
            self.height / chunks_y + 1
        };
        proof {
            let (w, cx) = (self.width as int, chunks_x as int);
            assert(w > 0 && w % cx == 0 ==> w / cx > 0) by (nonlinear_arith)
                requires
                    cx > 0,
                    w >= 0,
            ;
            let (h, cy) = (self.height as int, chunks_y as int);
            assert(h > 0 && h % cy == 0 ==> h / cy > 0) by (nonlinear_arith)
                requires
                    cy > 0,
                    h >= 0,
            ;
        }
        Chunks::new(self, chunk_width, chunk_height)
    }
}

impl Chunks {
    /// How far the walk has come.
    pub closed spec fn tiling(self) -> Tiling {
        Tiling {
            done: self.done,
            offset_x: self.offset_x as int,
            offset_y: self.offset_y as int,
            chunk_width: self.chunk_width as int,
            chunk_height: self.chunk_height as int,
            width: self.width as int,
            height: self.height as int,
        }
    }

    /// The image is one that a buffer can hold, and the walk is in good
    /// standing.
    pub closed spec fn wf(self) -> bool {
        &&& self.width * self.height <= usize::MAX
        &&& self.tiling().wf()
    }

    /// A walk in good standing is one over tiles in good standing.
    pub proof fn lemma_wf(self)
        requires
            self.wf(),
        ensures
            self.tiling().wf(),
    {
    }

    /// The tiles of an image of the buffer's size, each `chunk_width` by
    /// `chunk_height` pixels unless it is cut off at the border.
    pub fn new(buffer: &Buffer, chunk_width: usize, chunk_height: usize) -> (c: Self)
        requires
            buffer.wf(),
            buffer.spec_width() > 0 ==> chunk_width > 0,
            buffer.spec_height() > 0 ==> chunk_height > 0,
        ensures
            c.wf(),
            c.tiling() == Tiling::start(
                buffer.spec_width(),
                buffer.spec_height(),
                chunk_width as int,
                chunk_height as int,
            ),
            c.tiling().remaining() == buffer.pixels(),
    {
        let width = buffer.width();
        let height = buffer.height();
        proof {
            buffer.lemma_size();
            Tiling::lemma_start(width as int, height as int, chunk_width as int, chunk_height as int);
            assert(buffer.pixels() =~= Set::new(
                |p: (int, int)| 0 <= p.0 < width && 0 <= p.1 < height,
            ));
        }
        Chunks { done: false, offset_x: 0, offset_y: 0, chunk_width, chunk_height, width, height }
    }

    /// The next tile, without a sample in it, or `None` when every tile was
    /// handed out.
    pub fn next(&mut self) -> (r: Option<Chunk>)
        requires
            old(self).wf(),
        ensures
            final(self).wf(),
            r is None == old(self).tiling().done,
            r is None ==> final(self).tiling() == old(self).tiling(),
            r matches Some(chunk) ==> {
                &&& chunk.wf()
                &&& chunk.is_blank()
                &&& chunk.bounds() == old(self).tiling().tile()
                &&& final(self).tiling() == old(self).tiling().step()
            },
    {
        if self.done {
            return None;
        }
        proof {
            self.tiling().lemma_step();
        }
        let remaining_width = self.width - self.offset_x;
        let remaining_height = self.height - self.offset_y;
        let chunk_width = if self.chunk_width <= remaining_width {
            self.chunk_width
        } else {
            remaining_width
        };
        let chunk_height = if self.chunk_height <= remaining_height {
            self.chunk_height
        } else {
            remaining_height
        };
        proof {
            lemma_area_monotonic(
                chunk_width as int,
                chunk_height as int,
                self.width as int,
                self.height as int,
            );
        }
        let chunk = Chunk::blank(
            self.offset_x,
            self.offset_y,
            self.offset_x + chunk_width,
            self.offset_y + chunk_height,
        );
        self.offset_x = self.offset_x + chunk_width;
        if self.offset_x == self.width {
            self.offset_x = 0;
            self.offset_y = self.offset_y + chunk_height;
        }
        if self.offset_y == self.height {
            self.done = true;
        }
        Some(chunk)
    }
}

impl Buffer {
    /// A buffer holds as many sums as a `usize` can count.
    pub proof fn lemma_size(self)
        requires
            self.wf(),
        ensures
            self.spec_width() * self.spec_height() <= usize::MAX,
            0 <= self.spec_width(),
            0 <= self.spec_height(),
    {
    }
}

/// One of the tiles holds the pixel.
pub open spec fn covered_by(tiles: Seq<Chunk>, x: int, y: int) -> bool {
    exists|k: int| 0 <= k < tiles.len() && (#[trigger] tiles[k]).covers(x, y)
}

/// No pixel is in two of the tiles.
pub open spec fn disjoint(tiles: Seq<Chunk>) -> bool {
    forall|j: int, k: int, x: int, y: int|
        0 <= j < k < tiles.len() ==> !(#[trigger] tiles[j].covers(x, y) && #[trigger] tiles[k].covers(
            x,
            y,
        ))
}

impl Buffer {
    /// The tiles split the image: each lies inside it, every pixel of the
    /// image is in one of them, and none is in two.
    pub open spec fn split_into(self, tiles: Seq<Chunk>) -> bool {
        &&& forall|k: int| 0 <= k < tiles.len() ==> self.holds(#[trigger] tiles[k])
        &&& forall|x: int, y: int| #[trigger] self.in_bounds(x, y) ==> covered_by(tiles, x, y)
        &&& disjoint(tiles)
    }

    /// All tiles of a grid of `chunks_x` by `chunks_y` tiles, each without a
    /// sample in it, in the order of the walk. They split the image.
    pub fn tiles(&self, chunks_x: usize, chunks_y: usize) -> (v: Vec<Chunk>)
        requires
            self.wf(),
            chunks_x > 0,
            chunks_y > 0,
        ensures
            bounds_of(v@) == self.spec_chunks(chunks_x as int, chunks_y as int).rest(),
            self.split_into(v@),
            forall|k: int| 0 <= k < v@.len() ==> (#[trigger] v@[k]).wf() && v@[k].is_blank(),
    {
        let mut it = self.chunks(chunks_x, chunks_y);
        let mut v: Vec<Chunk> = Vec::new();
        let ghost first = it.tiling();
        proof {
            assert(bounds_of(v@) =~= Seq::<Tile>::empty());
            self.lemma_size();
        }
        loop
            invariant
                it.wf(),
                it.tiling().width == self.spec_width(),
                it.tiling().height == self.spec_height(),
                first == self.spec_chunks(chunks_x as int, chunks_y as int),
                bounds_of(v@) + it.tiling().rest() == first.rest(),
                forall|k: int| 0 <= k < v@.len() ==> self.holds(#[trigger] v@[k]),
                forall|k: int| 0 <= k < v@.len() ==> (#[trigger] v@[k]).wf() && v@[k].is_blank(),
                forall|x: int, y: int| #[trigger]
                    self.in_bounds(x, y) ==> covered_by(v@, x, y) || it.tiling().remaining().contains(
                        (x, y),
                    ),
                forall|k: int, x: int, y: int|
                    0 <= k < v@.len() && #[trigger] v@[k].covers(x, y)
                        ==> !it.tiling().remaining().contains((x, y)),
                disjoint(v@),
            decreases it.tiling().left(),
        {
            let ghost before = v@;
            let ghost state = it.tiling();
            let ghost rem = state.remaining();
            proof {
                it.lemma_wf();
                if state.done {
                    state.lemma_done();
                } else {
                    state.lemma_step();
                }
            }
            match it.next() {
                None => {
                    proof {
                        assert(it.tiling().rest() == Seq::<Tile>::empty());
                        assert(bounds_of(v@) + Seq::<Tile>::empty() =~= bounds_of(v@));
                    }
                    return v;
                },
                Some(chunk) => {
                    v.push(chunk);
                    proof {
                        let after = v@;
                        assert(after == before.push(chunk));
                        assert(chunk.pixels() =~= state.tile().pixels());
                        assert(bounds_of(after) =~= bounds_of(before) + seq![state.tile()]);
                        assert(bounds_of(after) + it.tiling().rest() =~= bounds_of(before) + (
                        seq![state.tile()] + state.step().rest()));
                        assert forall|x: int, y: int| #[trigger] self.in_bounds(x, y) implies covered_by(
                            after,
                            x,
                            y,
                        ) || it.tiling().remaining().contains((x, y)) by {
                            if covered_by(before, x, y) {
                                let k = choose|k: int|
                                    0 <= k < before.len() && (#[trigger] before[k]).covers(x, y);
                                assert(after[k] == before[k]);
                            } else {
                                assert(rem.contains((x, y)));
                                if chunk.pixels().contains((x, y)) {
                                    assert(after[after.len() - 1].covers(x, y));
                                }
                            }
                        }
                        assert forall|k: int, x: int, y: int|
                            0 <= k < after.len() && #[trigger] after[k].covers(
                                x,
                                y,
                            ) implies !it.tiling().remaining().contains((x, y)) by {
                            if k < before.len() {
                                assert(after[k] == before[k]);
                            } else {
                                assert(chunk.pixels().contains((x, y)));
                            }
                        }
                        assert forall|j: int, k: int, x: int, y: int|
                            0 <= j < k < after.len() implies !(#[trigger] after[j].covers(x, y)
                            && #[trigger] after[k].covers(x, y)) by {
                            assert(after[j] == before[j]);
                            if k < before.len() {
                                assert(after[k] == before[k]);
                            } else if after[j].covers(x, y) && chunk.covers(x, y) {
                                assert(!rem.contains((x, y)));
                                assert(chunk.pixels().contains((x, y)));
                            }
                        }
                        assert forall|k: int| 0 <= k < after.len() implies self.holds(
                            #[trigger] after[k],
                        ) by {
                            if k < before.len() {
                                assert(after[k] == before[k]);
                            }
                        }
                    }
                },
            }
        }
    }
}

/// A sum divided by a number of samples, rounded towards zero.
pub open spec fn spec_mean(sum: int, samples: int) -> int
    recommends
        samples > 0,
{
    if sum >= 0 {
        sum / samples
    } else {
        -((-sum) / samples)
    }
}

fn mean(sum: i64, samples: u64) -> (m: i64)
    requires
        samples > 0,
    ensures
        m == spec_mean(sum as int, samples as int),
{
    if sum >= 0 {
        let q = (sum as u64) / samples;
        assert(q <= sum) by (nonlinear_arith)
            requires
                q == (sum as int) / (samples as int),
                sum >= 0,
                samples > 0,
        ;
        q as i64
    } else {
        let neg: u64 = (-(sum as i128)) as u64;
        let q = neg / samples;
        assert(q <= neg) by (nonlinear_arith)
            requires
                q == (neg as int) / (samples as int),
                neg >= 0,
                samples > 0,
        ;
        (-(q as i128)) as i64
    }
}

impl Buffer {
    /// The value of a pixel as it is displayed: its sum divided by the
    /// number of samples. None before the first sample.
    pub open spec fn spec_average(self, x: int, y: int) -> Option<Pixel> {
        if self.spec_samples() == 0 {
            None
        } else {
            Some(
                Pixel {
                    r: spec_mean(self.spec_sum(x, y).r as int, self.spec_samples()) as i64,
                    g: spec_mean(self.spec_sum(x, y).g as int, self.spec_samples()) as i64,
                    b: spec_mean(self.spec_sum(x, y).b as int, self.spec_samples()) as i64,
                },
            )
        }
    }

    /// The value of a pixel as it is displayed.
    pub fn average(&self, x: usize, y: usize) -> (p: Option<Pixel>)
        requires
            self.wf(),
            self.in_bounds(x as int, y as int),
        ensures
            p == self.spec_average(x as int, y as int),
    {
        if self.samples == 0 {
            return None;
        }
        let n = self.samples as u64;
        let sum = self.sum(x, y);
        Some(Pixel { r: mean(sum.r, n), g: mean(sum.g, n), b: mean(sum.b, n) })
    }
}

} // verus!
