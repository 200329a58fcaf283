use bendy_tracer::buffer::{Buffer, ColorSpace, Pixel, Sample};
use bendy_tracer::bvh::Bvh;
use bendy_tracer::geometry::{Aabb, Clip, Point3, Ray, UNIT};
use bendy_tracer::material::{Material, MaterialRef, Materials, Surface};
use bendy_tracer::tracer::{
    Action, ChunkConfig, ColorData, Config, Face, Outcome, Output, Path, RenderConfig, Slot,
    Slots, Status, Subsample, Tracer,
};

#[test]
fn faces_are_told_apart() {
    let all = [Face::Front, Face::Back, Face::Volume, Face::VolumeFront, Face::VolumeBack];
    let front = [true, false, false, true, false];
    let back = [false, true, false, false, true];
    let surface = [true, true, false, false, false];
    let volume = [false, false, true, true, true];
    for (i, f) in all.iter().enumerate() {
        assert_eq!(f.is_front(), front[i]);
        assert_eq!(f.is_back(), back[i]);
        assert_eq!(f.is_surface(), surface[i]);
        assert_eq!(f.is_volume(), volume[i]);
    }
}

#[test]
fn default_settings() {
    let c = Config::default();
    assert_eq!(c.max_bounces, 8);
    assert_eq!(c.max_volume_bounces, 32);
    assert_eq!(c.clip_min, 10);
    assert_eq!(c.clip_max, 1_024_000);
    assert_eq!(c.volume_step, 102);
    assert_eq!(c.chunks_x, 4);
    assert_eq!(c.chunks_y, 2);
    assert_eq!(c.output, Output::Full);
    assert_eq!(UNIT, 1024);
    assert_eq!(Output::default(), Output::Full);
    assert_eq!(Subsample::default(), Subsample::Off);
    let r = RenderConfig::default();
    assert_eq!(r.samples, 64);
    assert_eq!(r.subsample, Subsample::Off);
    assert_eq!(r.output, None);
    assert_eq!(r.max_bounces, None);
    assert_eq!(r.max_volume_bounces, None);
    assert_eq!(r.volume_step, None);
    let d = ColorData::default();
    assert_eq!(d.color, Sample::splat(0));
    assert_eq!(d.albedo, Sample::splat(0));
    assert_eq!(d.emitted, Sample::splat(0));
    assert_eq!(d.normal, Point3::new(0, 0, 0));
    assert_eq!(d.depth, i32::MAX);
}

#[test]
fn settings_of_a_pass() {
    let r = RenderConfig::with_samples(3);
    assert_eq!(r, RenderConfig { samples: 3, ..RenderConfig::default() });
    let r = RenderConfig::with_samples_subsample(5, Subsample::Subpixel(2));
    assert_eq!(
        r,
        RenderConfig { samples: 5, subsample: Subsample::Subpixel(2), ..RenderConfig::default() }
    );
}

#[test]
fn samples_per_pixel() {
    assert_eq!(Subsample::Off.subpixel_count(), 1);
    assert_eq!(Subsample::Subpixel(0).subpixel_count(), 0);
    assert_eq!(Subsample::Subpixel(1).subpixel_count(), 1);
    assert_eq!(Subsample::Subpixel(3).subpixel_count(), 9);
    assert_eq!(Subsample::Off.side(), 1);
    assert_eq!(Subsample::Subpixel(3).side(), 3);
}

#[test]
fn sub_pixels_come_row_by_row() {
    let mut it = Subsample::Subpixel(3).into_iter();
    let mut got = Vec::new();
    while let Some(p) = it.next() {
        got.push(p);
    }
    assert_eq!(
        got,
        vec![(0, 0), (1, 0), (2, 0), (0, 1), (1, 1), (2, 1), (0, 2), (1, 2), (2, 2)]
    );
    assert_eq!(it.next(), None);
}

#[test]
fn one_sample_without_a_pattern() {
    let mut it = Subsample::Off.into_iter();
    assert_eq!(it.next(), Some((0, 0)));
    assert_eq!(it.next(), None);
    assert_eq!(it.next(), None);
    let mut none = Subsample::Subpixel(0).into_iter();
    assert_eq!(none.next(), None);
    let mut one = Subsample::Subpixel(1).into_iter();
    assert_eq!(one.next(), Some((0, 0)));
    assert_eq!(one.next(), None);
}

#[test]
fn pass_takes_what_it_leaves_open_from_the_tracer() {
    let main = Config { max_bounces: 5, max_volume_bounces: 50, ..Config::default() };
    let c = ChunkConfig::with_configs(&main, &RenderConfig::with_samples(2));
    assert_eq!(
        c,
        ChunkConfig {
            output: Output::Full,
            subsample: Subsample::Off,
            samples: 2,
            max_bounces: 5,
            max_volume_bounces: 50,
            clip_min: 10,
            clip_max: 1_024_000,
            volume_step: 102,
        }
    );
    let render = RenderConfig {
        subsample: Subsample::Subpixel(2),
        samples: 9,
        output: Some(Output::Depth),
        max_bounces: Some(1),
        max_volume_bounces: Some(3),
        volume_step: Some(7),
    };
    let c = ChunkConfig::with_configs(&main, &render);
    assert_eq!(
        c,
        ChunkConfig {
            output: Output::Depth,
            subsample: Subsample::Subpixel(2),
            samples: 9,
            max_bounces: 1,
            max_volume_bounces: 3,
            clip_min: 10,
            clip_max: 1_024_000,
            volume_step: 7,
        }
    );
    assert_eq!(c.clip(), Clip { min: 10, max: 1_024_000 });
    assert_eq!(c.clip_volumetric(), Clip { min: 0, max: 7 });
    // The budget of bounces alone leaves the budget of volume steps alone.
    let only = RenderConfig { max_bounces: Some(2), ..RenderConfig::default() };
    let c = ChunkConfig::with_configs(&main, &only);
    assert_eq!((c.max_bounces, c.max_volume_bounces), (2, 50));
}

#[test]
fn output_setting_selects_the_value() {
    let data = ColorData {
        color: Sample::new(1, 2, 3),
        albedo: Sample::new(4, 5, 6),
        emitted: Sample::new(7, 8, 9),
        normal: Point3::new(-1, -2, -3),
        depth: 11,
    };
    let expected = [
        (Output::Full, Pixel { r: 1, g: 2, b: 3 }),
        (Output::Albedo, Pixel { r: 4, g: 5, b: 6 }),
        (Output::Normal, Pixel { r: -1, g: -2, b: -3 }),
        (Output::Depth, Pixel { r: 11, g: 11, b: 11 }),
    ];
    for (output, pixel) in expected.iter() {
        let main = Config { output: *output, ..Config::default() };
        let config = ChunkConfig::with_configs(&main, &RenderConfig::default());
        let buffer = Buffer::new(2, 2, ColorSpace::Linear);
        let mut tiles = buffer.tiles(1, 1);
        assert!(config.write(&mut tiles[0], 1, 0, &data));
        assert_eq!(tiles[0].sum(1, 0), *pixel);
        assert_eq!(tiles[0].sum(0, 0), Pixel { r: 0, g: 0, b: 0 });
    }
}

#[test]
fn path_without_bounces_traces_once() {
    let main = Config { max_bounces: 0, ..Config::default() };
    let config = ChunkConfig::with_configs(&main, &RenderConfig::default());
    let mut path = Path::new(&config);
    assert_eq!(path.action(), Action::Trace);
    path.advance(Outcome::Scattered);
    assert_eq!(path.bounce(), 1);
    assert_eq!(path.action(), Action::Truncate);
    path.advance(Outcome::Scattered);
    assert_eq!(path.bounce(), 1);
    assert_eq!(path.action(), Action::Truncate);
}

#[test]
fn path_ends_with_a_miss_or_an_absorption() {
    let config = ChunkConfig::with_configs(&Config::default(), &RenderConfig::default());
    for outcome in [Outcome::Miss, Outcome::Absorbed].iter() {
        let mut path = Path::new(&config);
        path.advance(Outcome::Scattered);
        path.advance(Outcome::VolumeStep);
        assert_eq!(path.action(), Action::Trace);
        path.advance(*outcome);
        assert_eq!(path.action(), Action::Finish);
        assert_eq!((path.bounce(), path.volume_bounce()), (1, 1));
        path.advance(Outcome::Scattered);
        assert_eq!(path.action(), Action::Finish);
        assert_eq!((path.bounce(), path.volume_bounce()), (1, 1));
    }
}

#[test]
fn path_traces_one_ray_more_than_it_may_bounce() {
    let main = Config { max_bounces: 8, max_volume_bounces: 32, ..Config::default() };
    let config = ChunkConfig::with_configs(&main, &RenderConfig::default());
    let mut path = Path::new(&config);
    let mut traced = 0;
    while path.action() == Action::Trace {
        traced += 1;
        path.advance(Outcome::Scattered);
    }
    assert_eq!(traced, 9);
    assert_eq!(path.action(), Action::Truncate);
    assert_eq!(path.bounce(), 9);
}

#[test]
fn steps_through_volumes_have_a_budget_of_their_own() {
    let main = Config { max_bounces: 2, max_volume_bounces: 5, ..Config::default() };
    let config = ChunkConfig::with_configs(&main, &RenderConfig::default());
    let mut path = Path::new(&config);
    let mut traced = 0;
    while path.action() == Action::Trace {
        traced += 1;
        path.advance(Outcome::VolumeStep);
    }
    assert_eq!(traced, 6);
    assert_eq!((path.bounce(), path.volume_bounce()), (0, 6));
    assert_eq!(path.action(), Action::Truncate);

    let mut path = Path::new(&config);
    path.advance(Outcome::VolumeStep);
    path.advance(Outcome::Scattered);
    path.advance(Outcome::VolumeStep);
    path.advance(Outcome::Scattered);
    assert_eq!(path.action(), Action::Trace);
    path.advance(Outcome::Scattered);
    assert_eq!(path.action(), Action::Truncate);
    assert_eq!((path.bounce(), path.volume_bounce()), (3, 2));
}

#[test]
fn greatest_budget_does_not_overflow() {
    let main = Config { max_bounces: usize::MAX, max_volume_bounces: usize::MAX, ..Config::default() };
    let config = ChunkConfig::with_configs(&main, &RenderConfig::default());
    let mut path = Path::new(&config);
    for _ in 0..1000 {
        assert_eq!(path.action(), Action::Trace);
        path.advance(Outcome::Scattered);
        path.advance(Outcome::VolumeStep);
    }
    assert_eq!((path.bounce(), path.volume_bounce()), (1000, 1000));
}

#[test]
fn number_of_samples_of_a_pass() {
    assert_eq!(Tracer::<u8>::pass_samples(&RenderConfig::with_samples(3)), Some(3));
    assert_eq!(
        Tracer::<u8>::pass_samples(&RenderConfig::with_samples_subsample(3, Subsample::Subpixel(4))),
        Some(48)
    );
    assert_eq!(
        Tracer::<u8>::pass_samples(&RenderConfig::with_samples_subsample(3, Subsample::Subpixel(0))),
        Some(0)
    );
    assert_eq!(
        Tracer::<u8>::pass_samples(&RenderConfig::with_samples_subsample(
            2,
            Subsample::Subpixel(usize::MAX)
        )),
        None
    );
    assert_eq!(
        Tracer::<u8>::pass_samples(&RenderConfig::with_samples_subsample(
            usize::MAX,
            Subsample::Subpixel(2)
        )),
        None
    );
    assert_eq!(
        Tracer::<u8>::pass_samples(&RenderConfig::with_samples_subsample(
            0,
            Subsample::Subpixel(usize::MAX)
        )),
        None
    );
}

#[test]
fn tracer_keeps_its_settings_and_materials() {
    let mut materials = Materials::with_root(1u8);
    let m = materials.add(2);
    let tracer = Tracer::new(materials);
    assert_eq!(tracer.config, Config::default());
    assert_eq!(*tracer.materials.get(m), 2);
    let config = Config { chunks_x: 8, chunks_y: 4, ..Config::default() };
    let tracer = Tracer::with_config(Materials::with_root(1u8), config);
    assert_eq!(tracer.config, config);
    assert_eq!(*tracer.materials.get(MaterialRef::root()), 1);
    let buffer = Buffer::new(16, 8, ColorSpace::SRgb);
    let tiles = tracer.chunks(&buffer);
    assert_eq!(tiles.len(), 32);
    assert!(tiles.iter().all(|t| t.chunk_width() == 2 && t.chunk_height() == 2));
}

#[test]
fn pass_without_samples_is_done_at_once() {
    let tracer = Tracer::new(Materials::with_root(0u8));
    let mut buffer = Buffer::new(4, 4, ColorSpace::Linear);
    let mut tiles = tracer.chunks(&buffer);
    assert!(tiles[0].write_color(0, 0, Sample::splat(5)));
    let status = tracer.render(&RenderConfig::with_samples(0), &mut buffer, &tiles);
    assert_eq!(status, Status::Done);
    assert_eq!(buffer.samples(), 0);
    assert_eq!(buffer.sum(0, 0), Pixel { r: 0, g: 0, b: 0 });
}

#[test]
fn pass_that_cannot_be_counted_adds_nothing() {
    let tracer = Tracer::new(Materials::with_root(0u8));
    let mut buffer = Buffer::new(4, 4, ColorSpace::Linear);
    assert!(buffer.inc_samples(usize::MAX - 3));
    let mut tiles = tracer.chunks(&buffer);
    assert!(tiles[0].write_color(0, 0, Sample::splat(5)));
    let status = tracer.render(&RenderConfig::with_samples(4), &mut buffer, &tiles);
    assert_eq!(status, Status::Done);
    assert_eq!(buffer.samples(), usize::MAX - 3);
    assert_eq!(buffer.sum(0, 0), Pixel { r: 0, g: 0, b: 0 });
    let status = tracer.render(&RenderConfig::with_samples(3), &mut buffer, &tiles);
    assert_eq!(status, Status::InProgress);
    assert_eq!(buffer.samples(), usize::MAX);
    assert_eq!(buffer.sum(0, 0), Pixel { r: 5, g: 5, b: 5 });
    let huge = RenderConfig::with_samples_subsample(1, Subsample::Subpixel(usize::MAX));
    assert_eq!(tracer.render(&huge, &mut buffer, &tiles), Status::Done);
}

/// One pass in which every sample of the pixel `(x, y)` has the value
/// `f(x, y)`.
fn pass(tracer: &Tracer<u8>, buffer: &mut Buffer, samples: usize, f: &dyn Fn(usize, usize) -> Sample) -> Status {
    let mut tiles = tracer.chunks(buffer);
    for tile in tiles.iter_mut() {
        let (x0, x1) = tile.range_x();
        let (y0, y1) = tile.range_y();
        for y in y0..y1 {
            for x in x0..x1 {
                for _ in 0..samples {
                    assert!(tile.write_color(x, y, f(x, y)));
                }
            }
        }
    }
    tracer.render(&RenderConfig::with_samples(samples), buffer, &tiles)
}

#[test]
fn two_passes_add_up() {
    let tracer = Tracer::new(Materials::with_root(0u8));
    let mut buffer = Buffer::new(7, 5, ColorSpace::Linear);
    let first = |x: usize, y: usize| Sample::new(x as i32, y as i32, 100);
    let second = |x: usize, y: usize| Sample::new(10, -(x as i32), (x * y) as i32);
    let (s1, s2) = (3usize, 5usize);
    assert_eq!(pass(&tracer, &mut buffer, s1, &first), Status::InProgress);
    assert_eq!(buffer.samples(), s1);
    for y in 0..5 {
        for x in 0..7 {
            let f = first(x, y);
            assert_eq!(buffer.sum(x, y), Pixel { r: 3 * f.r as i64, g: 3 * f.g as i64, b: 300 });
            assert_eq!(buffer.average(x, y), Some(Pixel { r: f.r as i64, g: f.g as i64, b: 100 }));
        }
    }
    assert_eq!(pass(&tracer, &mut buffer, s2, &second), Status::InProgress);
    assert_eq!(buffer.samples(), s1 + s2);
    for y in 0..5 {
        for x in 0..7 {
            let (f, g) = (first(x, y), second(x, y));
            let sum = buffer.sum(x, y);
            assert_eq!(sum.r, 3 * f.r as i64 + 5 * g.r as i64);
            assert_eq!(sum.g, 3 * f.g as i64 + 5 * g.g as i64);
            assert_eq!(sum.b, 3 * f.b as i64 + 5 * g.b as i64);
            // The average over both passes is the average of the two
            // passes' averages, each weighted with its samples.
            let weighted = (s1 as f64 * f.r as f64 + s2 as f64 * g.r as f64) / (s1 + s2) as f64;
            assert!((sum.r as f64 / buffer.samples() as f64 - weighted).abs() < 1e-9);
        }
    }
}

#[test]
fn sub_pixels_count_as_samples() {
    let tracer = Tracer::new(Materials::with_root(0u8));
    let mut buffer = Buffer::new(2, 2, ColorSpace::Linear);
    let tiles = tracer.chunks(&buffer);
    let config = RenderConfig::with_samples_subsample(3, Subsample::Subpixel(2));
    assert_eq!(tracer.render(&config, &mut buffer, &tiles), Status::InProgress);
    assert_eq!(buffer.samples(), 12);
}

/// What the test scenes are made of: boxes that stand for the primitives.
#[derive(Debug, Clone, Copy, PartialEq)]
struct Thing {
    aabb: Aabb,
    material: MaterialRef,
}

fn first_touch(thing: &Thing, ray: &Ray, clip: &Clip) -> Option<i32> {
    let mut t = clip.min;
    while t <= clip.max {
        let p = ray.at(t);
        let b = &thing.aabb;
        if (b.min.x as i64) < p.x
            && p.x < b.max.x as i64
            && (b.min.y as i64) < p.y
            && p.y < b.max.y as i64
            && (b.min.z as i64) < p.z
            && p.z < b.max.z as i64
        {
            return Some(t);
        }
        t += 1;
    }
    None
}

/// The light that comes back along one camera ray.
fn radiance(
    bvh: &Bvh<Thing>,
    materials: &Materials<Material>,
    config: &ChunkConfig,
    ray: &Ray,
) -> Sample {
    let mut path = Path::new(config);
    loop {
        match path.action() {
            Action::Truncate => return Sample::splat(0),
            Action::Finish => unreachable!(),
            Action::Trace => {}
        }
        let mut query = bvh.hit(ray, &Clip { min: 0, max: 400 });
        while let Some(thing) = query.next() {
            if let Some(t) = first_touch(thing, ray, &query.clip()) {
                query.accept(t);
            }
        }
        let material = match query.best() {
            None => {
                path.advance(Outcome::Miss);
                materials.root()
            }
            Some((thing, _)) => materials.get(thing.material),
        };
        match material {
            Material::Surface(Surface::Emissive { albedo, intensity }) => {
                path.advance(Outcome::Absorbed);
                return Sample::new(albedo.r * intensity, albedo.g * intensity, albedo.b * intensity);
            }
            _ => {
                // The scattered ray goes on from where this one came.
                path.advance(Outcome::Scattered);
            }
        }
    }
}

fn render(
    bvh: &Bvh<Thing>,
    tracer: &Tracer<Material>,
    buffer: &mut Buffer,
    render: &RenderConfig,
) -> Status {
    let config = ChunkConfig::with_configs(&tracer.config, render);
    let mut tiles = tracer.chunks(buffer);
    for tile in tiles.iter_mut() {
        let (x0, x1) = tile.range_x();
        let (y0, y1) = tile.range_y();
        for y in y0..y1 {
            for x in x0..x1 {
                for _ in 0..render.samples {
                    let ray = Ray::new(
                        Point3::new(0, 0, 100),
                        Point3::new(x as i32 - 8, y as i32 - 8, -16),
                    );
                    let data = ColorData {
                        color: radiance(bvh, &tracer.materials, &config, &ray),
                        ..ColorData::default()
                    };
                    assert!(config.write(tile, x, y, &data));
                }
            }
        }
    }
    tracer.render(render, buffer, &tiles)
}

#[test]
fn without_bounces_only_the_light_is_seen() {
    let mut materials = Materials::with_root(Material::emissive(Sample::splat(0), 0));
    let lamp = materials.add(Material::emissive(Sample::splat(1), 10));
    let wall = materials.add(Material::diffuse(Sample::splat(1)));
    let mut bvh = Bvh::new();
    let lamp_box = Aabb::new(Point3::new(-40, -5, -5), Point3::new(-30, 5, 5));
    let wall_box = Aabb::new(Point3::new(20, -20, -10), Point3::new(60, 20, 0));
    bvh.insert(lamp_box, Thing { aabb: lamp_box, material: lamp });
    bvh.insert(wall_box, Thing { aabb: wall_box, material: wall });
    let config = Config { max_bounces: 0, chunks_x: 3, chunks_y: 2, ..Config::default() };
    let tracer = Tracer::with_config(materials, config);
    let mut buffer = Buffer::new(17, 17, ColorSpace::Linear);
    for round in 1..4usize {
        assert_eq!(
            render(&bvh, &tracer, &mut buffer, &RenderConfig::with_samples(2)),
            Status::InProgress
        );
        assert_eq!(buffer.samples(), 2 * round);
    }
    let mut lit = 0;
    for y in 0..17 {
        for x in 0..17 {
            let ray = Ray::new(Point3::new(0, 0, 100), Point3::new(x as i32 - 8, y as i32 - 8, -16));
            let sees_lamp = first_touch(
                &Thing { aabb: lamp_box, material: lamp },
                &ray,
                &Clip { min: 0, max: 400 },
            )
            .is_some();
            let expected = if sees_lamp { 10 } else { 0 };
            assert_eq!(
                buffer.average(x, y),
                Some(Pixel { r: expected, g: expected, b: expected }),
                "pixel ({}, {})",
                x,
                y
            );
            if sees_lamp {
                lit += 1;
            }
        }
    }
    assert!(lit > 0 && lit < 17 * 17);
}

#[test]
fn empty_scene_shows_the_environment_everywhere() {
    let materials = Materials::with_root(Material::emissive(Sample::new(3, 2, 1), 5));
    let bvh: Bvh<Thing> = Bvh::new();
    let tracer = Tracer::new(materials);
    let mut buffer = Buffer::new(9, 6, ColorSpace::Linear);
    assert_eq!(render(&bvh, &tracer, &mut buffer, &RenderConfig::with_samples(4)), Status::InProgress);
    for y in 0..6 {
        for x in 0..9 {
            assert_eq!(buffer.average(x, y), Some(Pixel { r: 15, g: 10, b: 5 }));
        }
    }
}

fn settings(samples: usize, subsample: Subsample) -> ChunkConfig {
    ChunkConfig::with_configs(
        &Config::default(),
        &RenderConfig::with_samples_subsample(samples, subsample),
    )
}

#[test]
fn samples_of_a_tile_come_pixel_by_pixel() {
    let buffer = Buffer::new(5, 4, ColorSpace::Linear);
    let tiles = buffer.tiles(2, 2);
    // The last tile is two columns by two rows at (3, 2).
    let tile = &tiles[3];
    assert_eq!((tile.range_x(), tile.range_y()), ((3, 5), (2, 4)));
    assert_eq!(tile.pixel_count(), 4);
    let mut slots = Slots::new(tile, &settings(2, Subsample::Subpixel(2)));
    let mut got = Vec::new();
    while let Some(slot) = slots.next() {
        got.push(slot);
    }
    let grid = [(0, 0), (1, 0), (0, 1), (1, 1)];
    let mut expected = Vec::new();
    for (x, y) in [(3, 2), (4, 2), (3, 3), (4, 3)].iter() {
        for _ in 0..2 {
            for (i, j) in grid.iter() {
                expected.push(Slot { x: *x, y: *y, i: *i, j: *j });
            }
        }
    }
    assert_eq!(got, expected);
    assert_eq!(slots.next(), None);
    assert_eq!(slots.next(), None);
}

#[test]
fn every_pixel_gets_the_samples_that_the_pass_counts() {
    for (samples, subsample) in [
        (1, Subsample::Off),
        (3, Subsample::Off),
        (2, Subsample::Subpixel(3)),
        (5, Subsample::Subpixel(1)),
        (0, Subsample::Subpixel(2)),
        (4, Subsample::Subpixel(0)),
    ]
    .iter()
    {
        let tracer = Tracer::with_config(
            Materials::with_root(0u8),
            Config { chunks_x: 3, chunks_y: 2, ..Config::default() },
        );
        let render = RenderConfig::with_samples_subsample(*samples, *subsample);
        let counted = Tracer::<u8>::pass_samples(&render).unwrap();
        let config = ChunkConfig::with_configs(&tracer.config, &render);
        let mut buffer = Buffer::new(7, 5, ColorSpace::Linear);
        let mut tiles = tracer.chunks(&buffer);
        for tile in tiles.iter_mut() {
            let mut slots = Slots::new(tile, &config);
            let mut handed = 0;
            while let Some(slot) = slots.next() {
                assert!(slot.i < subsample.side() && slot.j < subsample.side());
                assert!(tile.write_color(slot.x, slot.y, Sample::splat(1)));
                handed += 1;
            }
            assert_eq!(handed, tile.pixel_count() * counted);
        }
        let before = buffer.samples();
        let status = tracer.render(&render, &mut buffer, &tiles);
        assert_eq!(status, if *samples == 0 { Status::Done } else { Status::InProgress });
        assert_eq!(buffer.samples(), before + if *samples == 0 { 0 } else { counted });
        for y in 0..5 {
            for x in 0..7 {
                let expected = if *samples == 0 { 0 } else { counted as i64 };
                assert_eq!(buffer.sum(x, y), Pixel { r: expected, g: expected, b: expected });
            }
        }
    }
}

#[test]
fn tile_without_pixels_has_no_samples() {
    let buffer = Buffer::new(0, 3, ColorSpace::Linear);
    let tiles = buffer.tiles(2, 2);
    for tile in tiles.iter() {
        let mut slots = Slots::new(tile, &settings(4, Subsample::Subpixel(2)));
        assert_eq!(slots.next(), None);
    }
}

#[test]
fn number_of_samples_never_falls() {
    let tracer = Tracer::new(Materials::with_root(0u8));
    let mut buffer = Buffer::new(4, 4, ColorSpace::Linear);
    let tiles = tracer.chunks(&buffer);
    let mut last = buffer.samples();
    for (samples, expected) in [(3usize, 3usize), (0, 3), (5, 8), (0, 8)].iter() {
        tracer.render(&RenderConfig::with_samples(*samples), &mut buffer, &tiles);
        assert!(buffer.samples() >= last);
        assert_eq!(buffer.samples(), *expected);
        last = buffer.samples();
    }
}
