//! The bookkeeping of a render pass: its settings, the sub-pixel pattern,
//! the budget of a path, and what a pass adds to the buffer.

use crate::buffer::{bounds_of, covered_by, disjoint, Buffer, Chunk, Sample};
use crate::geometry::{Clip, Point3, UNIT};
use crate::material::Materials;
use vstd::prelude::*;

verus! {

/// What kind of hit an intersection is.
#[derive(Debug, Clone, Copy, PartialEq, Eq, Structural)]
pub enum Face {
    Front,
    Back,
    Volume,
    VolumeFront,
    VolumeBack,
}

impl Face {
    /// Whether the hit is on the outside of a boundary.
    pub fn is_front(&self) -> (b: bool)
        ensures
            b == (*self == Face::Front || *self == Face::VolumeFront),
    {
        matches!(self, Face::Front | Face::VolumeFront)
    }

    /// Whether the hit is on the inside of a boundary.
    pub fn is_back(&self) -> (b: bool)
        ensures
            b == (*self == Face::Back || *self == Face::VolumeBack),
    {
        matches!(self, Face::Back | Face::VolumeBack)
    }

    /// Whether the hit is on a surface.
    pub fn is_surface(&self) -> (b: bool)
        ensures
            b == (*self == Face::Front || *self == Face::Back),
    {
        matches!(self, Face::Front | Face::Back)
    }

    /// Whether the hit is in, or on the boundary of, a volume.
    pub fn is_volume(&self) -> (b: bool)
        ensures
            b == (*self == Face::Volume || *self == Face::VolumeFront || *self
                == Face::VolumeBack),
            b == !(*self == Face::Front || *self == Face::Back),
    {
        matches!(self, Face::Volume | Face::VolumeFront | Face::VolumeBack)
    }
}

/// Which of the values of a sample goes into the buffer.
#[derive(Debug, Clone, Copy, PartialEq, Eq, Structural)]
pub enum Output {
    Full,
    Albedo,
    Normal,
    Depth,
}

impl Default for Output {
    fn default() -> (o: Self)
        ensures
            o == Output::Full,
    {
        Output::Full
    }
}

/// The values of one sample. Colours, normal and depth are fixed-point
/// numbers.
#[derive(Debug, Clone, Copy, PartialEq, Eq, Structural)]
pub struct ColorData {
    pub color: Sample,
    pub albedo: Sample,
    pub emitted: Sample,
    pub normal: Point3,
    pub depth: i32,
}

impl Default for ColorData {
    /// No light, no normal, and as far away as can be.
    fn default() -> (c: Self)
        ensures
            c.color == (Sample { r: 0, g: 0, b: 0 }),
            c.albedo == (Sample { r: 0, g: 0, b: 0 }),
            c.emitted == (Sample { r: 0, g: 0, b: 0 }),
            c.normal == (Point3 { x: 0, y: 0, z: 0 }),
            c.depth == i32::MAX,
    {
        ColorData {
            color: Sample { r: 0, g: 0, b: 0 },
            albedo: Sample { r: 0, g: 0, b: 0 },
            emitted: Sample { r: 0, g: 0, b: 0 },
            normal: Point3 { x: 0, y: 0, z: 0 },
            depth: i32::MAX,
        }
    }
}

/// The settings of a tracer.
#[derive(Debug, Clone, Copy, PartialEq, Eq, Structural)]
pub struct Config {
    pub max_bounces: usize,
    pub max_volume_bounces: usize,
    pub clip_min: i32,
    pub clip_max: i32,
    pub volume_step: i32,
    pub chunks_x: usize,
    pub chunks_y: usize,
    pub output: Output,
}

impl Default for Config {
    /// Eight bounces, thirty-two steps through volumes, a clip interval from
    /// a hundredth of a unit to a thousand units, volume steps of a tenth of
    /// a unit, and four by two tiles.
    fn default() -> (c: Self)
        ensures
            c.max_bounces == 8,
            c.max_volume_bounces == 32,
            c.clip_min == UNIT / 100,
            c.clip_max == 1000 * UNIT,
            c.volume_step == UNIT / 10,
            c.chunks_x == 4,
            c.chunks_y == 2,
            c.output == Output::Full,
    {
        Config {
            max_bounces: 8,
            max_volume_bounces: 32,
            clip_min: UNIT / 100,
            clip_max: 1000 * UNIT,
            volume_step: UNIT / 10,
            chunks_x: 4,
            chunks_y: 2,
            output: Output::Full,
        }
    }
}

/// The pattern of sub-pixel samples: one sample per pixel, or a grid of
/// `n` by `n` samples.
#[derive(Debug, Clone, Copy, PartialEq, Eq, Structural)]
pub enum Subsample {
    /// One sample in the pixel's corner.
    Off,
    Subpixel(usize),
}

impl Default for Subsample {
    fn default() -> (s: Self)
        ensures
            s == Subsample::Off,
    {
        Subsample::Off
    }
}

impl Subsample {
    /// The number of samples per pixel.
    pub open spec fn spec_subpixel_count(self) -> int {
        match self {
            Subsample::Off => 1,
            Subsample::Subpixel(count) => count * count,
        }
    }

    /// The number of sub-pixels along one side of a pixel.
    pub open spec fn spec_side(self) -> int {
        match self {
            Subsample::Off => 1,
            Subsample::Subpixel(count) => count as int,
        }
    }

    /// A grid small enough for its samples to be counted.
    pub open spec fn wf(self) -> bool {
        self.spec_subpixel_count() <= usize::MAX
    }

    /// The number of sub-pixels along one side of a pixel: the width of a
    /// sub-pixel is the width of a pixel divided by it.
    pub fn side(&self) -> (n: usize)
        ensures
            n == self.spec_side(),
    {
        match *self {
            Subsample::Off => 1,
            Subsample::Subpixel(count) => count,
        }
    }

    /// The number of samples per pixel.
    pub fn subpixel_count(&self) -> (n: usize)
        requires
            self.wf(),
        ensures
            n == self.spec_subpixel_count(),
    {
        match *self {
            Subsample::Off => 1,
            Subsample::Subpixel(count) => count * count,
        }
    }

    /// The sub-pixels of a pixel, one after the other.
    pub fn into_iter(self) -> (it: SubsampleIntoIter)
        requires
            self.wf(),
        ensures
            it.wf(),
            it.spec_subsample() == self,
            it.spec_count() == 0,
    {
        SubsampleIntoIter { subsample: self, count: 0 }
    }
}

/// A walk over the sub-pixels of a pixel.
#[derive(Debug)]
pub struct SubsampleIntoIter {
    subsample: Subsample,
    count: usize,
}

impl SubsampleIntoIter {
    /// The pattern that is walked over.
    pub closed spec fn spec_subsample(self) -> Subsample {
        self.subsample
    }

    /// The number of sub-pixels that were handed out.
    pub closed spec fn spec_count(self) -> int {
        self.count as int
    }

    /// No more sub-pixels were handed out than there are.
    pub closed spec fn wf(self) -> bool {
        self.subsample.wf() && self.count <= self.subsample.spec_subpixel_count()
    }

    /// The next sub-pixel as its column and its row in the grid, the rows
    /// one after the other; for the pattern `Off` the one sub-pixel
    /// `(0, 0)`. `None` when every sub-pixel was handed out.
    pub fn next(&mut self) -> (r: Option<(usize, usize)>)
        requires
            old(self).wf(),
        ensures
            final(self).wf(),
            final(self).spec_subsample() == old(self).spec_subsample(),
            r is Some == (old(self).spec_count() < old(self).spec_subsample().spec_subpixel_count()),
            r is None ==> final(self).spec_count() == old(self).spec_count(),
            r matches Some((i, j)) ==> {
                &&& final(self).spec_count() == old(self).spec_count() + 1
                &&& i < old(self).spec_subsample().spec_side()
                &&& j < old(self).spec_subsample().spec_side()
                &&& j * old(self).spec_subsample().spec_side() + i == old(self).spec_count()
            },
    {
        match self.subsample {
            Subsample::Off => {
                if self.count == 0 {
                    self.count = 1;
                    Some((0, 0))
                } else {
                    None
                }
            },
            Subsample::Subpixel(count) => {
                if self.count < count * count {
                    let i = self.count % count;
                    let j = self.count / count;
                    proof {
                        let (c, n) = (self.count as int, count as int);
                        vstd::arithmetic::div_mod::lemma_fundamental_div_mod(c, n);
                        assert(n * (c / n) == (c / n) * n) by (nonlinear_arith);
                        assert(c / n < n) by (nonlinear_arith)
                            requires
                                0 <= c < n * n,
                                n > 0,
                        ;
                    }
                    self.count = self.count + 1;
                    Some((i, j))
                } else {
                    None
                }
            },
        }
    }
}

/// The settings of one render pass; what is left open is taken from the
/// tracer's settings.
#[derive(Debug, Clone, Copy, PartialEq, Eq, Structural)]
pub struct RenderConfig {
    pub subsample: Subsample,
    pub samples: usize,
    pub output: Option<Output>,
    pub max_bounces: Option<usize>,
    pub max_volume_bounces: Option<usize>,
    pub volume_step: Option<i32>,
}

impl Default for RenderConfig {
    /// Sixty-four samples per pixel, and everything else as the tracer has
    /// it.
    fn default() -> (c: Self)
        ensures
            c == (RenderConfig {
                subsample: Subsample::Off,
                samples: 64,
                output: None,
                max_bounces: None,
                max_volume_bounces: None,
                volume_step: None,
            }),
    {
        RenderConfig {
            subsample: Subsample::Off,
            samples: 64,
            output: None,
            max_bounces: None,
            max_volume_bounces: None,
            volume_step: None,
        }
    }
}

impl RenderConfig {
    /// A pass of the given number of samples per pixel.
    pub fn with_samples(samples: usize) -> (c: Self)
        ensures
            c == (RenderConfig {
                subsample: Subsample::Off,
                samples,
                output: None,
                max_bounces: None,
                max_volume_bounces: None,
                volume_step: None,
            }),
    {
        RenderConfig {
            subsample: Subsample::Off,
            samples,
            output: None,
            max_bounces: None,
            max_volume_bounces: None,
            volume_step: None,
        }
    }

    /// A pass of the given number of samples per sub-pixel.
    pub fn with_samples_subsample(samples: usize, subsample: Subsample) -> (c: Self)
        ensures
            c == (RenderConfig {
                subsample,
                samples,
                output: None,
                max_bounces: None,
                max_volume_bounces: None,
                volume_step: None,
            }),
    {
        RenderConfig {
            subsample,
            samples,
            output: None,
            max_bounces: None,
            max_volume_bounces: None,
            volume_step: None,
        }
    }

    /// The number of samples that the pass adds to every pixel.
    pub open spec fn spec_pass_samples(self) -> int {
        self.samples * self.subsample.spec_subpixel_count()
    }
}

/// Whether a call to `render` found anything to do.
#[derive(Debug, Clone, Copy, PartialEq, Eq, Structural)]
pub enum Status {
    Done,
    InProgress,
}

/// The settings that the work on one tile goes by.
#[derive(Debug, Clone, Copy, PartialEq, Eq, Structural)]
pub struct ChunkConfig {
    pub output: Output,
    pub subsample: Subsample,
    pub samples: usize,
    pub max_bounces: usize,
    pub max_volume_bounces: usize,
    pub clip_min: i32,
    pub clip_max: i32,
    pub volume_step: i32,
}

impl ChunkConfig {
    /// The settings of a pass, with what the pass leaves open taken from the
    /// tracer's settings.
    pub fn with_configs(main: &Config, render: &RenderConfig) -> (c: Self)
        ensures
            c.output == match render.output {
                Some(o) => o,
                None => main.output,
            },
            c.subsample == render.subsample,
            c.samples == render.samples,
            c.max_bounces == match render.max_bounces {
                Some(n) => n,
                None => main.max_bounces,
            },
            c.max_volume_bounces == match render.max_volume_bounces {
                Some(n) => n,
                None => main.max_volume_bounces,
            },
            c.clip_min == main.clip_min,
            c.clip_max == main.clip_max,
            c.volume_step == match render.volume_step {
                Some(s) => s,
                None => main.volume_step,
            },
    {
        ChunkConfig {
            output: match render.output {
                Some(o) => o,
                None => main.output,
            },
            subsample: render.subsample,
            samples: render.samples,
            max_bounces: match render.max_bounces {
                Some(n) => n,
                None => main.max_bounces,
            },
            max_volume_bounces: match render.max_volume_bounces {
                Some(n) => n,
                None => main.max_volume_bounces,
            },
            clip_min: main.clip_min,
            clip_max: main.clip_max,
            volume_step: match render.volume_step {
                Some(s) => s,
                None => main.volume_step,
            },
        }
    }

    /// The clip interval of a ray in the scene.
    pub fn clip(&self) -> (c: Clip)
        ensures
            c == (Clip { min: self.clip_min, max: self.clip_max }),
    {
        Clip { min: self.clip_min, max: self.clip_max }
    }

    /// The clip interval of a step through a volume.
    pub fn clip_volumetric(&self) -> (c: Clip)
        ensures
            c == (Clip { min: 0, max: self.volume_step }),
    {
        Clip { min: 0, max: self.volume_step }
    }

    /// The value of a sample that goes into the buffer.
    pub open spec fn spec_value(self, data: ColorData) -> Sample {
        match self.output {
            Output::Full => data.color,
            Output::Albedo => data.albedo,
            Output::Normal => Sample { r: data.normal.x, g: data.normal.y, b: data.normal.z },
            Output::Depth => Sample { r: data.depth, g: data.depth, b: data.depth },
        }
    }

    /// Adds to a pixel of a tile the value of a sample that the output
    /// setting selects. Where a sum would leave its range nothing is added,
    /// and the result is `false`.
    pub fn write(&self, chunk: &mut Chunk, x: usize, y: usize, data: &ColorData) -> (done: bool)
        requires
            old(chunk).wf(),
            old(chunk).covers(x as int, y as int),
        ensures
            final(chunk).wf(),
            final(chunk).same_but(*old(chunk), x as int, y as int),
            done == old(chunk).spec_sum(x as int, y as int).admits(self.spec_value(*data)),
            final(chunk).spec_sum(x as int, y as int) == if done {
                old(chunk).spec_sum(x as int, y as int).plus(self.spec_value(*data))
            } else {
                old(chunk).spec_sum(x as int, y as int)
            },
    {
        match self.output {
            Output::Full => chunk.write_color(x, y, data.color),
            Output::Albedo => chunk.write_color(x, y, data.albedo),
            Output::Normal => chunk.write_normal(x, y, data.normal),
            Output::Depth => chunk.write_depth(x, y, data.depth),
        }
    }
}

impl Buffer {
    /// Every sum of every tile can be added to the sum that the buffer
    /// holds for the same pixel.
    pub open spec fn admits_all(self, tiles: Seq<Chunk>) -> bool {
        forall|k: int| 0 <= k < tiles.len() ==> self.admits_chunk(#[trigger] tiles[k])
    }

    /// The sums of `self` are those of `before` with, for every pixel of
    /// one of the first `n` tiles, the sum of that tile added.
    pub open spec fn merged_first(self, before: Buffer, tiles: Seq<Chunk>, n: int) -> bool {
        &&& forall|k: int, x: int, y: int|
            0 <= k < n && #[trigger] tiles[k].covers(x, y) ==> self.spec_sum(x, y)
                == before.spec_sum(x, y).plus_sum(tiles[k].spec_sum(x, y))
        &&& forall|x: int, y: int|
            self.in_bounds(x, y) && !covered_by(tiles.take(n), x, y) ==> #[trigger] self.spec_sum(
                x,
                y,
            ) == before.spec_sum(x, y)
    }

    /// `self` is `before` after a pass that rendered the tiles and added
    /// `samples` samples to every pixel: no sum left its range, every pixel
    /// of a tile has the sum of that tile added, every other pixel is as it
    /// was, and the number of samples has grown by `samples`.
    pub open spec fn after_pass(self, before: Buffer, tiles: Seq<Chunk>, samples: int) -> bool {
        &&& self.spec_width() == before.spec_width()
        &&& self.spec_height() == before.spec_height()
        &&& self.spec_color_space() == before.spec_color_space()
        &&& self.spec_samples() == before.spec_samples() + samples
        &&& before.admits_all(tiles)
        &&& self.merged_first(before, tiles, tiles.len() as int)
    }

    /// The tiles lie inside the image, and no pixel is in two of them.
    pub open spec fn holds_apart(self, tiles: Seq<Chunk>) -> bool {
        &&& forall|k: int| 0 <= k < tiles.len() ==> self.holds(#[trigger] tiles[k]) && tiles[k].wf()
        &&& disjoint(tiles)
    }
}

/// Two passes add up: after a pass of `s1` samples and one of `s2` samples
/// the buffer counts `s1 + s2` samples more, and the sum of a pixel has grown
/// by what the two passes summed up for it. The average of the pixel over
/// both passes, its sum by the number of samples, is therefore the average
/// of the two passes' averages, each weighted with its number of samples.
pub proof fn lemma_passes_add_up(
    b0: Buffer,
    b1: Buffer,
    b2: Buffer,
    t1: Seq<Chunk>,
    t2: Seq<Chunk>,
    s1: int,
    s2: int,
    j: int,
    k: int,
    x: int,
    y: int,
)
    requires
        b1.after_pass(b0, t1, s1),
        b2.after_pass(b1, t2, s2),
        0 <= j < t1.len(),
        0 <= k < t2.len(),
        t1[j].covers(x, y),
        t2[k].covers(x, y),
    ensures
        b2.spec_samples() == b0.spec_samples() + s1 + s2,
        b2.spec_sum(x, y).r == b0.spec_sum(x, y).r + t1[j].spec_sum(x, y).r + t2[k].spec_sum(x, y).r,
        b2.spec_sum(x, y).g == b0.spec_sum(x, y).g + t1[j].spec_sum(x, y).g + t2[k].spec_sum(x, y).g,
        b2.spec_sum(x, y).b == b0.spec_sum(x, y).b + t1[j].spec_sum(x, y).b + t2[k].spec_sum(x, y).b,
{
    assert(b0.admits_chunk(t1[j]));
    assert(b1.admits_chunk(t2[k]));
    assert(b0.spec_sum(x, y).admits_sum(t1[j].spec_sum(x, y)));
    assert(b1.spec_sum(x, y).admits_sum(t2[k].spec_sum(x, y)));
}

/// A tracer: its settings and the materials of the scene.
#[derive(Debug)]
pub struct Tracer<M> {
    pub config: Config,
    pub materials: Materials<M>,
}

impl<M> Tracer<M> {
    /// A tracer with the default settings.
    pub fn new(materials: Materials<M>) -> (t: Self)
        ensures
            t.materials == materials,
            t.config.max_bounces == 8,
            t.config.max_volume_bounces == 32,
            t.config.clip_min == UNIT / 100,
            t.config.clip_max == 1000 * UNIT,
            t.config.volume_step == UNIT / 10,
            t.config.chunks_x == 4,
            t.config.chunks_y == 2,
            t.config.output == Output::Full,
    {
        Tracer { config: Config::default(), materials }
    }

    /// A tracer with the given settings.
    pub fn with_config(materials: Materials<M>, config: Config) -> (t: Self)
        ensures
            t.materials == materials,
            t.config == config,
    {
        Tracer { config, materials }
    }

    /// The tiles that a pass on the buffer is split into, each without a
    /// sample in it.
    pub fn chunks(&self, buffer: &Buffer) -> (v: Vec<Chunk>)
        requires
            buffer.wf(),
            self.config.chunks_x > 0,
            self.config.chunks_y > 0,
        ensures
            bounds_of(v@) == buffer.spec_chunks(
                self.config.chunks_x as int,
                self.config.chunks_y as int,
            ).rest(),
            buffer.split_into(v@),
            buffer.holds_apart(v@),
            forall|k: int| 0 <= k < v@.len() ==> (#[trigger] v@[k]).is_blank(),
    {
        buffer.tiles(self.config.chunks_x, self.config.chunks_y)
    }

    /// The number of samples that a pass adds to every pixel, where it can
    /// be counted.
    pub fn pass_samples(config: &RenderConfig) -> (n: Option<usize>)
        ensures
            n is Some == (config.subsample.wf() && config.spec_pass_samples() <= usize::MAX),
            n matches Some(v) ==> v == config.spec_pass_samples(),
    {
        let per_pixel = match config.subsample {
            Subsample::Off => Some(1usize),
            Subsample::Subpixel(count) => count.checked_mul(count),
        };
        match per_pixel {
            None => {
                proof {
                    if config.samples > 0 {
                        let (s, c) = (config.samples as int, config.subsample.spec_subpixel_count());
                        assert(s * c >= c) by (nonlinear_arith)
                            requires
                                s >= 1,
                                c >= 0,
                        ;
                    }
                }
                None
            },
            Some(c) => config.samples.checked_mul(c),
        }
    }

    /// Ends a render pass: adds the sums of the rendered tiles to the
    /// buffer, and the samples of the pass to its number of samples. A pass
    /// of no samples is `Done` at once. Where the number of samples or one
    /// of the sums would leave its range the buffer can take no more: it
    /// stays as it is, and the pass is `Done` as well.
    pub fn render(&self, config: &RenderConfig, buffer: &mut Buffer, tiles: &Vec<Chunk>) -> (status:
        Status)
        requires
            old(buffer).wf(),
            old(buffer).holds_apart(tiles@),
        ensures
            final(buffer).wf(),
            status == if config.samples > 0 && config.subsample.wf() && old(buffer).spec_samples()
                + config.spec_pass_samples() <= usize::MAX && old(buffer).admits_all(tiles@) {
                Status::InProgress
            } else {
                Status::Done
            },
            status == Status::InProgress ==> final(buffer).after_pass(
                *old(buffer),
                tiles@,
                config.spec_pass_samples(),
            ),
            status == Status::Done ==> final(buffer).same_frame(*old(buffer)),
            status == Status::Done ==> final(buffer).same_sums(*old(buffer)),
            final(buffer).spec_samples() == old(buffer).spec_samples() + if status
                == Status::InProgress {
                config.spec_pass_samples()
            } else {
                0
            },
            final(buffer).spec_samples() >= old(buffer).spec_samples(),
    {
        if config.samples == 0 {
            return Status::Done;
        }
        let current = buffer.samples();
        let samples = match Self::pass_samples(config) {
            None => {
                return Status::Done;
            },
            Some(n) => n,
        };
        if current > usize::MAX - samples {
            return Status::Done;
        }
        let mut k: usize = 0;
        while k < tiles.len()
            invariant
                buffer.wf(),
                buffer.holds_apart(tiles@),
                k <= tiles@.len(),
                forall|j: int| 0 <= j < k ==> buffer.admits_chunk(#[trigger] tiles@[j]),
            decreases tiles@.len() - k,
        {
            if !buffer.fits(&tiles[k]) {
                return Status::Done;
            }
            k = k + 1;
        }
        let mut k: usize = 0;
        while k < tiles.len()
            invariant
                buffer.wf(),
                old(buffer).wf(),
                old(buffer).holds_apart(tiles@),
                old(buffer).admits_all(tiles@),
                buffer.same_frame(*old(buffer)),
                k <= tiles@.len(),
                buffer.merged_first(*old(buffer), tiles@, k as int),
            decreases tiles@.len() - k,
        {
            let ghost mid = *buffer;
            proof {
                assert forall|x: int, y: int| tiles@[k as int].covers(x, y) implies (
                #[trigger] buffer.spec_sum(x, y)).admits_sum(tiles@[k as int].spec_sum(x, y)) by {
                    if covered_by(tiles@.take(k as int), x, y) {
                        let j = choose|j: int|
                            0 <= j < tiles@.take(k as int).len() && (#[trigger] tiles@.take(
                                k as int,
                            )[j]).covers(x, y);
                        assert(tiles@[j].covers(x, y));
                    }
                    assert(old(buffer).admits_chunk(tiles@[k as int]));
                }
            }
            let merged = buffer.merge(&tiles[k]);
            assert(merged);
            proof {
                let n = k as int + 1;
                assert forall|j: int, x: int, y: int|
                    0 <= j < n && #[trigger] tiles@[j].covers(x, y) implies buffer.spec_sum(x, y)
                    == old(buffer).spec_sum(x, y).plus_sum(tiles@[j].spec_sum(x, y)) by {
                    if j < k {
                        assert(!tiles@[k as int].covers(x, y));
                        assert(mid.spec_sum(x, y) == old(buffer).spec_sum(x, y).plus_sum(
                            tiles@[j].spec_sum(x, y),
                        ));
                    } else {
                        if covered_by(tiles@.take(k as int), x, y) {
                            let i = choose|i: int|
                                0 <= i < tiles@.take(k as int).len() && (#[trigger] tiles@.take(
                                    k as int,
                                )[i]).covers(x, y);
                            assert(tiles@[i].covers(x, y));
                        }
                    }
                }
                assert forall|x: int, y: int|
                    buffer.in_bounds(x, y) && !covered_by(
                        tiles@.take(n),
                        x,
                        y,
                    ) implies #[trigger] buffer.spec_sum(x, y) == old(buffer).spec_sum(x, y) by {
                    if tiles@[k as int].covers(x, y) {
                        assert(tiles@.take(n)[k as int].covers(x, y));
                    }
                    if covered_by(tiles@.take(k as int), x, y) {
                        let i = choose|i: int|
                            0 <= i < tiles@.take(k as int).len() && (#[trigger] tiles@.take(
                                k as int,
                            )[i]).covers(x, y);
                        assert(tiles@.take(n)[i].covers(x, y));
                    }
                }
            }
            k = k + 1;
        }
        buffer.inc_samples(samples);
        proof {
            assert(tiles@.take(tiles@.len() as int) =~= tiles@);
        }
        Status::InProgress
    }
}

/// What became of a ray that was traced.
#[derive(Debug, Clone, Copy, PartialEq, Eq, Structural)]
pub enum Outcome {
    /// The ray hit nothing: the environment's light comes back.
    Miss,
    /// The ray hit a surface that scatters none: its light comes back.
    Absorbed,
    /// The ray hit a surface, and a scattered ray goes on.
    Scattered,
    /// The ray made a step through a volume, and a ray goes on.
    VolumeStep,
}

/// What is to be done next on a path.
#[derive(Debug, Clone, Copy, PartialEq, Eq, Structural)]
pub enum Action {
    /// Trace the current ray, and report what became of it.
    Trace,
    /// The path has used up its bounces: nothing comes back along it.
    Truncate,
    /// The path has ended, and its light can be added up.
    Finish,
}

/// The budget of one path from the camera: the bounces off surfaces and the
/// steps through volumes that it has made, and how many it may make.
#[derive(Debug, Clone, Copy, PartialEq, Eq, Structural)]
pub struct Path {
    bounce: usize,
    volume_bounce: usize,
    max_bounces: usize,
    max_volume_bounces: usize,
    ended: bool,
}

impl Path {
    /// The number of bounces off surfaces so far.
    pub closed spec fn spec_bounce(self) -> int {
        self.bounce as int
    }

    /// The number of steps through volumes so far.
    pub closed spec fn spec_volume_bounce(self) -> int {
        self.volume_bounce as int
    }

    /// The number of bounces off surfaces that the path may make.
    pub closed spec fn spec_max_bounces(self) -> int {
        self.max_bounces as int
    }

    /// The number of steps through volumes that the path may make.
    pub closed spec fn spec_max_volume_bounces(self) -> int {
        self.max_volume_bounces as int
    }

    /// Whether a ray of the path missed everything or was absorbed.
    pub closed spec fn spec_ended(self) -> bool {
        self.ended
    }

    /// A path has made at most one bounce, and one step, more than it may.
    pub closed spec fn wf(self) -> bool {
        &&& self.bounce <= self.max_bounces + 1 <= usize::MAX
        &&& self.volume_bounce <= self.max_volume_bounces + 1 <= usize::MAX
    }

    /// What is to be done next: nothing more on a path that has ended,
    /// nothing at all on one that has made more bounces or more steps than
    /// it may, and a trace of the current ray on any other.
    pub open spec fn spec_action(self) -> Action {
        if self.spec_ended() {
            Action::Finish
        } else if self.spec_bounce() > self.spec_max_bounces() || self.spec_volume_bounce()
            > self.spec_max_volume_bounces() {
            Action::Truncate
        } else {
            Action::Trace
        }
    }

    /// The number of rays that the path can still have traced.
    pub open spec fn spec_budget(self) -> int {
        if self.spec_action() == Action::Trace {
            (self.spec_max_bounces() - self.spec_bounce()) + (self.spec_max_volume_bounces()
                - self.spec_volume_bounce()) + 1
        } else {
            0
        }
    }

    /// The greatest number that leaves room for one more.
    pub open spec fn capped(n: usize) -> int {
        if n == usize::MAX {
            usize::MAX - 1
        } else {
            n as int
        }
    }

    /// A path that starts at the camera, with the budget of the settings; a
    /// budget of `usize::MAX` counts as one less.
    pub fn new(config: &ChunkConfig) -> (p: Self)
        ensures
            p.wf(),
            p.spec_bounce() == 0,
            p.spec_volume_bounce() == 0,
            p.spec_max_bounces() == Self::capped(config.max_bounces),
            p.spec_max_volume_bounces() == Self::capped(config.max_volume_bounces),
            !p.spec_ended(),
            p.spec_action() == Action::Trace,
    {
        Path {
            bounce: 0,
            volume_bounce: 0,
            max_bounces: if config.max_bounces == usize::MAX {
                usize::MAX - 1
            } else {
                config.max_bounces
            },
            max_volume_bounces: if config.max_volume_bounces == usize::MAX {
                usize::MAX - 1
            } else {
                config.max_volume_bounces
            },
            ended: false,
        }
    }

    /// The number of bounces off surfaces so far.
    pub fn bounce(&self) -> (n: usize)
        ensures
            n == self.spec_bounce(),
    {
        self.bounce
    }

    /// The number of steps through volumes so far.
    pub fn volume_bounce(&self) -> (n: usize)
        ensures
            n == self.spec_volume_bounce(),
    {
        self.volume_bounce
    }

    /// What is to be done next.
    pub fn action(&self) -> (a: Action)
        ensures
            a == self.spec_action(),
    {
        if self.ended {
            Action::Finish
        } else if self.bounce > self.max_bounces || self.volume_bounce > self.max_volume_bounces {
            Action::Truncate
        } else {
            Action::Trace
        }
    }

    /// Takes note of what became of the ray that was traced: the path ends
    /// with a miss or an absorption, and has made one more bounce, or one
    /// more step, where a ray goes on. On a path that asks for no trace
    /// nothing changes.
    pub fn advance(&mut self, outcome: Outcome)
        requires
            old(self).wf(),
        ensures
            final(self).wf(),
            final(self).spec_max_bounces() == old(self).spec_max_bounces(),
            final(self).spec_max_volume_bounces() == old(self).spec_max_volume_bounces(),
            old(self).spec_action() != Action::Trace ==> *final(self) == *old(self),
            old(self).spec_action() == Action::Trace ==> {
                &&& final(self).spec_ended() == (outcome == Outcome::Miss || outcome
                    == Outcome::Absorbed)
                &&& final(self).spec_bounce() == old(self).spec_bounce() + if outcome
                    == Outcome::Scattered {
                    1int
                } else {
                    0int
                }
                &&& final(self).spec_volume_bounce() == old(self).spec_volume_bounce() + if outcome
                    == Outcome::VolumeStep {
                    1int
                } else {
                    0int
                }
                &&& final(self).spec_budget() < old(self).spec_budget()
            },
    {
        if self.ended || self.bounce > self.max_bounces || self.volume_bounce
            > self.max_volume_bounces {
            return ;
        }
        match outcome {
            Outcome::Miss => {
                self.ended = true;
            },
            Outcome::Absorbed => {
                self.ended = true;
            },
            Outcome::Scattered => {
                self.bounce = self.bounce + 1;
            },
            Outcome::VolumeStep => {
                self.volume_bounce = self.volume_bounce + 1;
            },
        }
    }
}

/// One sample that is to be taken: the pixel, and the sub-pixel as its
/// column and its row in the grid of sub-pixels.
#[derive(Debug, Clone, Copy, PartialEq, Eq, Structural)]
pub struct Slot {
    pub x: usize,
    pub y: usize,
    pub i: usize,
    pub j: usize,
}

/// How far a walk over the samples of a tile has come: the pixel it is at,
/// counted row by row from the tile's first, and the number of samples that
/// were handed out for that pixel.
pub struct Sampling {
    pub min_x: int,
    pub min_y: int,
    pub width: int,
    pub height: int,
    pub side: int,
    pub per_pixel: int,
    pub pixel: int,
    pub slot: int,
}

impl Sampling {
    /// The walk is inside the tile, and has handed out fewer samples for
    /// the pixel it is at than a pixel gets.
    pub open spec fn wf(self) -> bool {
        &&& 0 <= self.min_x && 0 <= self.min_y
        &&& 0 <= self.width && 0 <= self.height
        &&& 0 <= self.side && 0 <= self.per_pixel
        &&& self.per_pixel > 0 ==> self.side > 0
        &&& 0 <= self.pixel <= self.width * self.height
        &&& 0 <= self.slot
        &&& self.per_pixel > 0 ==> self.slot < self.per_pixel
        &&& self.per_pixel == 0 || self.pixel == self.width * self.height ==> self.slot == 0
    }

    /// Whether every sample of every pixel was handed out.
    pub open spec fn done(self) -> bool {
        self.per_pixel == 0 || self.pixel >= self.width * self.height
    }

    /// The sample that is handed out next: the pixels follow each other row
    /// by row, and for one pixel the sub-pixels row by row, the whole grid
    /// once for every sample.
    pub open spec fn current(self) -> Slot {
        Slot {
            x: (self.min_x + self.pixel % self.width) as usize,
            y: (self.min_y + self.pixel / self.width) as usize,
            i: (self.slot % self.side) as usize,
            j: ((self.slot / self.side) % self.side) as usize,
        }
    }

    /// The walk after the next sample: on with the same pixel until it has
    /// all its samples, then on to the next pixel.
    pub open spec fn step(self) -> Sampling {
        if self.slot + 1 < self.per_pixel {
            Sampling { slot: self.slot + 1, ..self }
        } else {
            Sampling { pixel: self.pixel + 1, slot: 0, ..self }
        }
    }

    /// The number of samples that were handed out.
    pub open spec fn handed(self) -> int {
        self.pixel * self.per_pixel + self.slot
    }

    /// Every step hands out one sample, and the samples are handed out
    /// pixel by pixel: the sample with the number `n` belongs to the pixel
    /// with the number `n / per_pixel`. Every pixel of the tile therefore
    /// gets exactly `per_pixel` samples, and the walk is done after `width *
    /// height * per_pixel` of them.
    pub proof fn lemma_counts(self)
        requires
            self.wf(),
            self.per_pixel > 0,
        ensures
            self.pixel == self.handed() / self.per_pixel,
            self.slot == self.handed() % self.per_pixel,
            self.done() <==> self.handed() == self.width * self.height * self.per_pixel,
            0 <= self.handed() <= self.width * self.height * self.per_pixel,
            !self.done() ==> self.step().wf() && self.step().handed() == self.handed() + 1,
    {
        vstd::arithmetic::div_mod::lemma_fundamental_div_mod_converse(
            self.handed(),
            self.per_pixel,
            self.pixel,
            self.slot,
        );
        let (p, n, k, total) = (self.pixel, self.per_pixel, self.slot, self.width * self.height);
        assert(0 <= p * n <= total * n && (p < total ==> (p + 1) * n <= total * n) && (p + 1) * n
            == p * n + n) by (nonlinear_arith)
            requires
                0 <= p <= total,
                n > 0,
        ;
    }

    /// The pixel of the next sample is one of the tile, and its sub-pixel
    /// one of the grid.
    pub proof fn lemma_current(self)
        requires
            self.wf(),
            !self.done(),
        ensures
            self.width > 0,
            self.min_x <= self.min_x + self.pixel % self.width < self.min_x + self.width,
            self.min_y <= self.min_y + self.pixel / self.width < self.min_y + self.height,
            0 <= self.slot % self.side < self.side,
            0 <= (self.slot / self.side) % self.side < self.side,
            0 <= self.slot / self.side,
    {
        let (w, h, p) = (self.width, self.height, self.pixel);
        assert(w > 0) by (nonlinear_arith)
            requires
                0 <= p < w * h,
                0 <= w,
                0 <= h,
        ;
        vstd::arithmetic::div_mod::lemma_multiply_divide_lt(p, w, h);
        assert(0 <= p / w && 0 <= p % w < w && 0 <= self.slot / self.side && 0 <= self.slot
            % self.side < self.side && 0 <= (self.slot / self.side) % self.side < self.side)
            by (nonlinear_arith)
            requires
                p >= 0,
                w > 0,
                self.slot >= 0,
                self.side > 0,
        ;
    }
}

/// A walk over the samples that a pass takes for a tile: for every pixel of
/// the tile as many as the pass adds to the number of samples of the buffer.
#[derive(Debug)]
pub struct Slots {
    min_x: usize,
    min_y: usize,
    width: usize,
    pixels: usize,
    side: usize,
    per_pixel: usize,
    pixel: usize,
    slot: usize,
    height: usize,
}

impl Slots {
    /// How far the walk has come.
    pub closed spec fn sampling(self) -> Sampling {
        Sampling {
            min_x: self.min_x as int,
            min_y: self.min_y as int,
            width: self.width as int,
            height: self.height as int,
            side: self.side as int,
            per_pixel: self.per_pixel as int,
            pixel: self.pixel as int,
            slot: self.slot as int,
        }
    }

    /// The walk is in good standing, and its tile is one of an image.
    pub closed spec fn wf(self) -> bool {
        &&& self.sampling().wf()
        &&& self.pixels == self.width * self.height
        &&& self.min_x + self.width <= usize::MAX
        &&& self.min_y + self.height <= usize::MAX
    }

    /// A walk in good standing is one over samples in good standing.
    pub proof fn lemma_wf(self)
        requires
            self.wf(),
        ensures
            self.sampling().wf(),
    {
    }

    /// The walk over the samples of a tile in a pass with the given
    /// settings, before its first sample.
    pub fn new(chunk: &Chunk, config: &ChunkConfig) -> (s: Self)
        requires
            chunk.wf(),
            config.subsample.wf(),
            config.samples * config.subsample.spec_subpixel_count() <= usize::MAX,
        ensures
            s.wf(),
            s.sampling() == (Sampling {
                min_x: chunk.spec_min_x(),
                min_y: chunk.spec_min_y(),
                width: chunk.spec_max_x() - chunk.spec_min_x(),
                height: chunk.spec_max_y() - chunk.spec_min_y(),
                side: config.subsample.spec_side(),
                per_pixel: config.samples * config.subsample.spec_subpixel_count(),
                pixel: 0,
                slot: 0,
            }),
    {
        let pixels = chunk.pixel_count();
        let (min_x, max_x) = chunk.range_x();
        let (min_y, max_y) = chunk.range_y();
        let side = config.subsample.side();
        let per_pixel = config.samples * config.subsample.subpixel_count();
        proof {
            let (w, h) = (max_x - min_x, max_y - min_y);
            assert(0 <= w * h) by (nonlinear_arith)
                requires
                    0 <= w,
                    0 <= h,
            ;
            if per_pixel > 0 && side == 0 {
                assert(config.samples * config.subsample.spec_subpixel_count() == 0)
                    by (nonlinear_arith)
                    requires
                        config.subsample.spec_subpixel_count() == 0,
                ;
            }
        }
        Slots {
            min_x,
            min_y,
            width: max_x - min_x,
            pixels,
            side,
            per_pixel,
            pixel: 0,
            slot: 0,
            height: max_y - min_y,
        }
    }

    /// The next sample to take, or `None` when every pixel of the tile has
    /// all its samples.
    pub fn next(&mut self) -> (r: Option<Slot>)
        requires
            old(self).wf(),
        ensures
            final(self).wf(),
            r is None == old(self).sampling().done(),
            r is None ==> final(self).sampling() == old(self).sampling(),
            r matches Some(slot) ==> {
                &&& slot == old(self).sampling().current()
                &&& final(self).sampling() == old(self).sampling().step()
                &&& final(self).sampling().handed() == old(self).sampling().handed() + 1
                &&& old(self).sampling().min_x <= slot.x < old(self).sampling().min_x + old(
                    self,
                ).sampling().width
                &&& old(self).sampling().min_y <= slot.y < old(self).sampling().min_y + old(
                    self,
                ).sampling().height
                &&& slot.i < old(self).sampling().side
                &&& slot.j < old(self).sampling().side
            },
    {
        if self.per_pixel == 0 || self.pixel >= self.pixels {
            return None;
        }
        proof {
            self.sampling().lemma_current();
            self.sampling().lemma_counts();
        }
        let slot = Slot {
            x: self.min_x + self.pixel % self.width,
            y: self.min_y + self.pixel / self.width,
            i: self.slot % self.side,
            j: (self.slot / self.side) % self.side,
        };
        if self.slot + 1 < self.per_pixel {
            self.slot = self.slot + 1;
        } else {
            self.pixel = self.pixel + 1;
            self.slot = 0;
        }
        Some(slot)
    }
}

} // verus!
