use bendy_tracer::buffer::Sample;
use bendy_tracer::material::{
    volume_scatters, Material, ShaderData, Surface, INTENSITY_ONE,
};
use bendy_tracer::sampler::{Pdf, DENSITY_EPSILON, DENSITY_ONE, WEIGHT_ONE};
use rand::rngs::SmallRng;
use rand::SeedableRng;

fn mix(a: Pdf, b: Pdf, w: u32) -> Pdf {
    Pdf::Mix(Box::new(a), Box::new(b), w)
}

#[test]
fn lobes_are_numbered_from_left_to_right() {
    let pdf = mix(mix(Pdf::Diffuse, Pdf::Metallic(3), 100), mix(Pdf::Light(7), Pdf::Glass(1, 2), 5), 9);
    assert_eq!(pdf.lobes(), 4);
    assert!(matches!(pdf.lobe(0), Pdf::Diffuse));
    assert!(matches!(pdf.lobe(1), Pdf::Metallic(3)));
    assert!(matches!(pdf.lobe(2), Pdf::Light(7)));
    assert!(matches!(pdf.lobe(3), Pdf::Glass(1, 2)));
    assert_eq!(Pdf::Diffuse.lobes(), 1);
    assert!(matches!(Pdf::Light(4).lobe(0), Pdf::Light(4)));
}

#[test]
fn density_of_an_even_mixture_is_the_mean() {
    let pdf = mix(Pdf::Diffuse, Pdf::Light(0), WEIGHT_ONE / 2);
    assert_eq!(pdf.pdf_impl(&vec![1000, 3000]), 2000);
    assert_eq!(pdf.pdf_impl(&vec![3000, 1000]), 2000);
    assert_eq!(pdf.pdf_impl(&vec![-400, 400]), 0);
    assert_eq!(pdf.pdf(&vec![1000, 3000]), Some(2000));
}

#[test]
fn density_moves_by_the_weight_and_rounds_towards_the_left() {
    let quarter = mix(Pdf::Diffuse, Pdf::Light(0), WEIGHT_ONE / 4);
    assert_eq!(quarter.pdf_impl(&vec![0, 1000]), 250);
    assert_eq!(quarter.pdf_impl(&vec![1000, 0]), 750);
    assert_eq!(quarter.pdf_impl(&vec![0, 3]), 0);
    assert_eq!(quarter.pdf_impl(&vec![3, 0]), 3);
    assert_eq!(quarter.pdf_impl(&vec![0, -3]), 0);
    assert_eq!(quarter.pdf_impl(&vec![0, 5]), 1);
    let third = mix(Pdf::Diffuse, Pdf::Light(0), 21845);
    assert_eq!(third.pdf_impl(&vec![0, 65536]), 21845);
    assert_eq!(third.pdf_impl(&vec![0, 3]), 0);
}

#[test]
fn density_at_the_ends_of_the_weights() {
    let left = mix(Pdf::Diffuse, Pdf::Light(0), 0);
    let right = mix(Pdf::Diffuse, Pdf::Light(0), WEIGHT_ONE);
    assert_eq!(left.pdf_impl(&vec![123, 456]), 123);
    assert_eq!(right.pdf_impl(&vec![123, 456]), 456);
    assert_eq!(left.pdf_impl(&vec![i64::MIN, i64::MAX]), i64::MIN);
    assert_eq!(right.pdf_impl(&vec![i64::MIN, i64::MAX]), i64::MAX);
    assert_eq!(right.pdf_impl(&vec![i64::MAX, i64::MIN]), i64::MIN);
}

#[test]
fn density_of_extreme_values_does_not_overflow() {
    let half = mix(Pdf::Diffuse, Pdf::Light(0), WEIGHT_ONE / 2);
    assert_eq!(half.pdf_impl(&vec![i64::MIN, i64::MAX]), -1);
    assert_eq!(half.pdf_impl(&vec![i64::MAX, i64::MIN]), 0);
}

#[test]
fn metallic_and_glass_lobes_have_the_density_one() {
    assert_eq!(Pdf::Metallic(5).pdf_impl(&vec![77]), DENSITY_ONE);
    assert_eq!(Pdf::Glass(5, 6).pdf_impl(&vec![77]), DENSITY_ONE);
    assert_eq!(Pdf::Diffuse.pdf_impl(&vec![77]), 77);
    assert_eq!(Pdf::Light(2).pdf_impl(&vec![77]), 77);
    let pdf = mix(Pdf::Metallic(1), Pdf::Diffuse, WEIGHT_ONE / 2);
    assert_eq!(pdf.pdf_impl(&vec![0, 0]), DENSITY_ONE / 2);
}

#[test]
fn nested_mixture_blends_branch_by_branch() {
    let pdf = mix(mix(Pdf::Diffuse, Pdf::Light(0), WEIGHT_ONE / 2), Pdf::Light(1), WEIGHT_ONE / 4);
    // The left branch is 200; a quarter of the way to 1000 is 400.
    assert_eq!(pdf.pdf_impl(&vec![100, 300, 1000]), 400);
}

#[test]
fn density_near_zero_is_of_no_use() {
    let pdf = Pdf::Diffuse;
    assert_eq!(pdf.pdf(&vec![0]), None);
    assert_eq!(pdf.pdf(&vec![DENSITY_EPSILON - 1]), None);
    assert_eq!(pdf.pdf(&vec![-(DENSITY_EPSILON - 1)]), None);
    assert_eq!(pdf.pdf(&vec![DENSITY_EPSILON]), Some(DENSITY_EPSILON));
    assert_eq!(pdf.pdf(&vec![-DENSITY_EPSILON]), Some(-DENSITY_EPSILON));
    assert_eq!(pdf.pdf(&vec![DENSITY_ONE]), Some(DENSITY_ONE));
}

#[test]
fn certain_weights_always_draw_the_same_lobe() {
    let mut rng = SmallRng::seed_from_u64(1);
    let right = mix(Pdf::Diffuse, Pdf::Light(0), WEIGHT_ONE);
    let left = mix(Pdf::Diffuse, Pdf::Light(0), 0);
    let deep = mix(mix(Pdf::Diffuse, Pdf::Light(0), WEIGHT_ONE), mix(Pdf::Light(1), Pdf::Light(2), 0), 0);
    for _ in 0..200 {
        assert_eq!(right.scatter(&mut rng), 1);
        assert_eq!(left.scatter(&mut rng), 0);
        assert_eq!(deep.scatter(&mut rng), 1);
        assert_eq!(Pdf::Metallic(3).scatter(&mut rng), 0);
    }
}

#[test]
fn a_lobe_that_is_never_drawn_has_no_share_in_the_density() {
    let left = mix(Pdf::Diffuse, Pdf::Light(0), 0);
    assert_eq!(left.pdf_impl(&vec![500, 1]), left.pdf_impl(&vec![500, 1_000_000]));
    let right = mix(Pdf::Diffuse, Pdf::Light(0), WEIGHT_ONE);
    assert_eq!(right.pdf_impl(&vec![1, 500]), right.pdf_impl(&vec![1_000_000, 500]));
}

#[test]
fn draws_follow_the_weight_of_the_mixture() {
    let mut rng = SmallRng::seed_from_u64(42);
    for &w in [WEIGHT_ONE / 2, WEIGHT_ONE / 4, 3 * (WEIGHT_ONE / 4), WEIGHT_ONE / 10].iter() {
        let pdf = mix(Pdf::Diffuse, Pdf::Light(0), w);
        let n = 20_000;
        let mut right = 0u32;
        for _ in 0..n {
            let lobe = pdf.scatter(&mut rng);
            assert!(lobe < 2);
            if lobe == 1 {
                right += 1;
            }
        }
        let expected = n as f64 * w as f64 / WEIGHT_ONE as f64;
        let sigma = (n as f64 * 0.25).sqrt();
        assert!(
            (right as f64 - expected).abs() < 5.0 * sigma,
            "weight {}: {} of {} draws went right",
            w,
            right,
            n
        );
        // The density blends with the same weight: a lobe that is twice as
        // dense as the other pulls the blend by its share of the draws.
        let blend = pdf.pdf_impl(&vec![0, WEIGHT_ONE as i64]);
        assert_eq!(blend, w as i64);
    }
}

#[test]
fn draws_of_a_nested_mixture_follow_the_product_of_the_weights() {
    let mut rng = SmallRng::seed_from_u64(7);
    let pdf = mix(Pdf::Diffuse, mix(Pdf::Light(0), Pdf::Light(1), WEIGHT_ONE / 2), WEIGHT_ONE / 2);
    let n = 20_000;
    let mut counts = [0u32; 3];
    for _ in 0..n {
        counts[pdf.scatter(&mut rng)] += 1;
    }
    let sigma = (n as f64 * 0.25).sqrt();
    assert!((counts[0] as f64 - 10_000.0).abs() < 5.0 * sigma);
    assert!((counts[1] as f64 - 5_000.0).abs() < 5.0 * sigma);
    assert!((counts[2] as f64 - 5_000.0).abs() < 5.0 * sigma);
}

#[test]
fn surfaces_ask_for_their_lobes() {
    let albedo = Sample::new(1, 2, 3);
    match (Surface::Diffuse { albedo }).shade(4) {
        Some(Pdf::Mix(a, b, w)) => {
            assert!(matches!(*a, Pdf::Diffuse));
            assert!(matches!(*b, Pdf::Light(4)));
            assert_eq!(w, WEIGHT_ONE / 2);
        }
        other => panic!("unexpected {:?}", other),
    }
    assert!(matches!((Surface::Metallic { albedo, roughness: 9 }).shade(4), Some(Pdf::Metallic(9))));
    assert!(matches!(
        (Surface::Glass { albedo, roughness: 9, ior: 1500 }).shade(4),
        Some(Pdf::Glass(9, 1500))
    ));
    assert!((Surface::Emissive { albedo, intensity: 5 }).shade(4).is_none());
    assert!(Material::Volume(0).shade(4).is_none());
    assert!(matches!(Material::metallic(albedo, 2).shade(0), Some(Pdf::Metallic(2))));
}

#[test]
fn own_density_of_a_surface() {
    let albedo = Sample::new(1, 2, 3);
    assert_eq!((Surface::Diffuse { albedo }).pdf(333), 333);
    assert_eq!((Surface::Metallic { albedo, roughness: 9 }).pdf(333), DENSITY_ONE);
    assert_eq!((Surface::Glass { albedo, roughness: 9, ior: 2 }).pdf(333), DENSITY_ONE);
    assert_eq!((Surface::Emissive { albedo, intensity: 5 }).pdf(333), DENSITY_ONE);
    assert_eq!(Material::diffuse(albedo).pdf(-5), -5);
    assert_eq!(Material::Volume(3).pdf(-5), DENSITY_ONE);
}

#[test]
fn builders_of_materials() {
    let albedo = Sample::new(1, 2, 3);
    assert_eq!(
        Material::flat(albedo),
        Material::Surface(Surface::Emissive { albedo, intensity: INTENSITY_ONE })
    );
    assert_eq!(Material::diffuse(albedo), Material::Surface(Surface::Diffuse { albedo }));
    assert_eq!(
        Material::metallic(albedo, 7),
        Material::Surface(Surface::Metallic { albedo, roughness: 7 })
    );
    assert_eq!(
        Material::glass(albedo, 7, 8),
        Material::Surface(Surface::Glass { albedo, roughness: 7, ior: 8 })
    );
    assert_eq!(
        Material::emissive(albedo, 20),
        Material::Surface(Surface::Emissive { albedo, intensity: 20 })
    );
}

#[test]
fn path_ends_where_the_density_is_of_no_use() {
    assert_eq!(
        ShaderData::surface(Some(77)),
        ShaderData { is_volume: false, scatter: true, pdf: 77 }
    );
    assert_eq!(
        ShaderData::surface(None),
        ShaderData { is_volume: false, scatter: false, pdf: DENSITY_ONE }
    );
    assert_eq!(
        ShaderData::volume(),
        ShaderData { is_volume: true, scatter: true, pdf: DENSITY_ONE }
    );
    // The whole rule: a blend below the threshold ends the path.
    let pdf = Pdf::Mix(Box::new(Pdf::Diffuse), Box::new(Pdf::Light(0)), WEIGHT_ONE / 2);
    assert!(!ShaderData::surface(pdf.pdf(&vec![4, 4])).scatter);
    assert_eq!(ShaderData::surface(pdf.pdf(&vec![4, 4])).pdf, DENSITY_ONE);
    assert!(ShaderData::surface(pdf.pdf(&vec![0, 40])).scatter);
    assert_eq!(ShaderData::surface(pdf.pdf(&vec![0, 40])).pdf, 20);
}

#[test]
fn dense_medium_always_scatters_and_empty_space_never() {
    let mut rng = SmallRng::seed_from_u64(3);
    for _ in 0..200 {
        assert!(volume_scatters(&mut rng, DENSITY_ONE));
        assert!(volume_scatters(&mut rng, i64::MAX));
        assert!(!volume_scatters(&mut rng, 0));
    }
}

#[test]
fn thin_medium_scatters_by_its_density() {
    let mut rng = SmallRng::seed_from_u64(5);
    let n = 20_000;
    let mut hits = 0;
    for _ in 0..n {
        if volume_scatters(&mut rng, DENSITY_ONE / 4) {
            hits += 1;
        }
    }
    let sigma = (n as f64 * 0.25).sqrt();
    assert!((hits as f64 - 5_000.0).abs() < 5.0 * sigma, "{} of {} steps scattered", hits, n);
}

#[test]
fn heads_takes_the_right_branch_and_tails_the_left() {
    let pdf = mix(mix(Pdf::Diffuse, Pdf::Metallic(3), 100), mix(Pdf::Light(7), Pdf::Glass(1, 2), 5), 9);
    let (first, taken) = pdf.branch(true);
    assert_eq!(first, 2);
    assert!(matches!(taken, Pdf::Mix(a, b, 5) if matches!(**a, Pdf::Light(7)) && matches!(**b, Pdf::Glass(1, 2))));
    let (first, taken) = pdf.branch(false);
    assert_eq!(first, 0);
    assert!(matches!(taken, Pdf::Mix(a, b, 100) if matches!(**a, Pdf::Diffuse) && matches!(**b, Pdf::Metallic(3))));

    // Heads twice leads to the last lobe, tails twice to the first.
    let (outer, right) = pdf.branch(true);
    let (inner, lobe) = right.branch(true);
    assert_eq!(outer + inner, 3);
    assert!(matches!(lobe, Pdf::Glass(1, 2)));
    let (outer, left) = pdf.branch(false);
    let (inner, lobe) = left.branch(false);
    assert_eq!(outer + inner, 0);
    assert!(matches!(lobe, Pdf::Diffuse));
    let (inner, lobe) = left.branch(true);
    assert_eq!(outer + inner, 1);
    assert!(matches!(lobe, Pdf::Metallic(3)));
}

#[test]
fn branch_does_not_look_at_the_weight() {
    for &w in [0, 1, WEIGHT_ONE / 2, WEIGHT_ONE].iter() {
        let pdf = mix(Pdf::Diffuse, Pdf::Light(4), w);
        let (first, taken) = pdf.branch(true);
        assert_eq!(first, 1);
        assert!(matches!(taken, Pdf::Light(4)));
        let (first, taken) = pdf.branch(false);
        assert_eq!(first, 0);
        assert!(matches!(taken, Pdf::Diffuse));
    }
}

#[test]
fn threshold_of_a_usable_density_is_a_hundred_thousandth() {
    assert_eq!(DENSITY_EPSILON, 11);
    // 10 / 2^20 is below 0.00001, and 11 / 2^20 is not.
    assert!((10.0 / DENSITY_ONE as f64) < 1e-5);
    assert!((11.0 / DENSITY_ONE as f64) >= 1e-5);
    assert_eq!(Pdf::Diffuse.pdf(&vec![10]), None);
    assert_eq!(Pdf::Diffuse.pdf(&vec![-10]), None);
    assert_eq!(Pdf::Diffuse.pdf(&vec![11]), Some(11));
    assert_eq!(Pdf::Diffuse.pdf(&vec![-11]), Some(-11));
}
