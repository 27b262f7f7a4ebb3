use distribution::engine::{log10_product_faces, product_faces, run_experiment, sum_faces, toss};
use distribution::histogram::create_histogram;
use distribution::rng::Rng;

#[test]
fn faces_always_in_range() {
    for seed in [0u64, 1, 7, 0xffff_ffff_ffff_fffe, u64::MAX] {
        let mut g = Rng::new(seed);
        let faces = toss(&mut g, 1_000);
        assert_eq!(faces.len(), 1_000);
        for f in faces {
            assert!((1..=10).contains(&f));
        }
    }
}

#[test]
fn toss_maps_draws_in_order() {
    let mut g = Rng::new(99);
    let mut mirror = Rng::new(99);
    let faces = toss(&mut g, 50);
    for f in faces {
        assert_eq!(f, (mirror.rand() % 10 + 1) as u128);
    }
}

#[test]
fn counts_sum_to_dataset_size() {
    let mut g = Rng::new(2024);
    let h = run_experiment(&mut g, 1_000, 5, |s: &[u128]| s.iter().sum());
    let total: usize = h.iter().map(|&(_, c)| c).sum();
    assert_eq!(total, 1_000);
}

#[test]
fn keys_strictly_descending_and_distinct() {
    let mut g = Rng::new(7);
    let h = run_experiment(&mut g, 2_000, 4, |s: &[u128]| s.iter().sum());
    for w in h.windows(2) {
        assert!(w[0].0 > w[1].0);
    }
}

#[test]
fn identical_seeds_identical_histograms() {
    let mut a = Rng::new(0x5eed);
    let mut b = Rng::new(0x5eed);
    let h1 = run_experiment(&mut a, 100_000, 500, |s: &[u128]| s.iter().sum());
    let h2 = run_experiment(&mut b, 100_000, 500, |s: &[u128]| s.iter().sum());
    assert_eq!(h1, h2);
}

#[test]
fn sum_reduction_scenario() {
    let samples: [&[u128]; 5] = [&[3, 4], &[10, 1], &[5, 5], &[2, 2], &[7, 3]];
    let scalars: Vec<u128> = samples.iter().map(|s| sum_faces(s)).collect();
    assert_eq!(scalars, vec![7, 11, 10, 4, 10]);
    let h = create_histogram(scalars);
    assert_eq!(h, vec![(11, 1), (10, 2), (7, 1), (4, 1)]);
    let total: usize = h.iter().map(|&(_, c)| c).sum();
    assert_eq!(total, 5);
}

#[test]
fn product_reduction_scenario() {
    let samples: [&[u128]; 3] = [&[2, 2, 2], &[1, 1, 1], &[10, 10, 10]];
    let scalars: Vec<u128> = samples.iter().map(|s| product_faces(s)).collect();
    assert_eq!(scalars, vec![8, 1, 1000]);
    let h = create_histogram(scalars);
    assert_eq!(h, vec![(1000, 1), (8, 1), (1, 1)]);
}

#[test]
fn single_toss_identity_matches_face_frequencies() {
    let mut g = Rng::new(31415);
    let h = run_experiment(&mut g, 5_000, 1, |s: &[u128]| s[0]);

    let mut mirror = Rng::new(31415);
    let mut counts = [0usize; 11];
    for _ in 0..5_000 {
        let face = (mirror.rand() % 10 + 1) as usize;
        counts[face] += 1;
    }
    let mut expected: Vec<(u128, usize)> = Vec::new();
    for face in (1..=10usize).rev() {
        if counts[face] > 0 {
            expected.push((face as u128, counts[face]));
        }
    }
    assert_eq!(h, expected);
}

#[test]
fn empty_experiment_gives_empty_histogram() {
    let mut g = Rng::new(1);
    let h = run_experiment(&mut g, 0, 3, |s: &[u128]| s.iter().sum());
    assert!(h.is_empty());
}

#[test]
fn repeated_value_collapses_to_one_entry() {
    let h = create_histogram(vec![5, 5, 5]);
    assert_eq!(h, vec![(5, 3)]);
}

#[test]
fn empty_values_give_empty_histogram() {
    let h = create_histogram(Vec::new());
    assert!(h.is_empty());
}

#[test]
fn log10_of_product_exact_values() {
    assert_eq!(log10_product_faces(&[10, 10, 10]), 3);
    assert_eq!(log10_product_faces(&[2, 2, 2]), 0);
    assert_eq!(log10_product_faces(&[10]), 1);
    assert_eq!(log10_product_faces(&[1]), 0);
    assert_eq!(log10_product_faces(&[9, 9]), 1);
}

#[test]
fn sum_of_two_faces() {
    assert_eq!(sum_faces(&[3, 4]), 7);
    assert_eq!(sum_faces(&[]), 0);
}

#[test]
fn widest_product_fits() {
    let faces = vec![10u128; 38];
    assert_eq!(product_faces(&faces), 100_000_000_000_000_000_000_000_000_000_000_000_000u128);
    assert_eq!(log10_product_faces(&faces), 38);
}

#[test]
fn zero_seed_experiment_is_degenerate() {
    let mut g = Rng::new(0);
    let h = run_experiment(&mut g, 10, 5, |s: &[u128]| s.iter().sum());
    assert_eq!(h, vec![(5, 10)]);
}
