use forest_fire::{
    estimate_point, run_experiment, run_trial, total_sweeps, ConfigError, PointEstimate,
};

#[test]
fn trial_at_zero_probability_has_no_sweep() {
    for n in 1..8 {
        assert_eq!(run_trial(n, 0, 10), 0);
    }
}

#[test]
fn trial_at_probability_one_has_fixed_depth() {
    assert_eq!(run_trial(1, 7, 7), 0);
    assert_eq!(run_trial(2, 7, 7), 1);
    assert_eq!(run_trial(3, 7, 7), 1);
    assert_eq!(run_trial(10, 7, 7), 1);
}

#[test]
fn trial_is_bounded_by_sites() {
    for _ in 0..50 {
        assert!(run_trial(6, 3, 5) <= 36);
    }
}

#[test]
fn total_sweeps_adds_counts() {
    assert_eq!(total_sweeps(&vec![]), 0);
    assert_eq!(total_sweeps(&vec![1, 2, 3]), 6);
    assert_eq!(total_sweeps(&vec![usize::MAX, usize::MAX]), 2 * (usize::MAX as u128));
}

#[test]
fn estimate_at_zero_probability_is_zero() {
    let e = estimate_point(5, 0, 10, 40);
    assert_eq!(e, PointEstimate { step: 0, resolution: 10, total_sweeps: 0, samples: 40 });
}

#[test]
fn estimate_at_probability_one_is_exact() {
    let e = estimate_point(3, 10, 10, 25);
    assert_eq!(e, PointEstimate { step: 10, resolution: 10, total_sweeps: 25, samples: 25 });
    let e = estimate_point(1, 4, 4, 9);
    assert_eq!(e.total_sweeps, 0);
}

#[test]
fn estimate_is_bounded() {
    let e = estimate_point(4, 6, 10, 30);
    assert_eq!((e.step, e.resolution, e.samples), (6, 10, 30));
    assert!(e.total_sweeps <= 30 * 16);
}

#[test]
fn zero_side_is_refused() {
    assert_eq!(run_experiment(0, 100, 10), Err(ConfigError::ZeroSide));
}

#[test]
fn low_resolution_is_refused() {
    assert_eq!(run_experiment(5, 2, 10), Err(ConfigError::LowResolution));
    assert_eq!(run_experiment(5, 0, 10), Err(ConfigError::LowResolution));
}

#[test]
fn resolution_three_gives_four_records() {
    let v = run_experiment(4, 3, 8).unwrap();
    assert_eq!(v.len(), 4);
    let steps: Vec<usize> = v.iter().map(|e| e.step).collect();
    assert_eq!(steps, vec![0, 1, 2, 3]);
    assert!(v.iter().all(|e| e.resolution == 3 && e.samples == 8));
    assert_eq!(v[0].total_sweeps, 0);
    assert_eq!(v[3].total_sweeps, 8);
}

#[test]
fn probabilities_ascend_from_zero_to_one() {
    let v = run_experiment(3, 10, 2).unwrap();
    assert_eq!(v.len(), 11);
    let ps: Vec<f64> = v.iter().map(|e| e.step as f64 / e.resolution as f64).collect();
    assert_eq!(ps[0], 0.0);
    assert_eq!(ps[10], 1.0);
    for k in 1..ps.len() {
        assert!(ps[k - 1] < ps[k]);
        assert!((ps[k] - k as f64 / 10.0).abs() < 1e-12);
    }
}

#[test]
fn repeated_runs_share_structure() {
    let a = run_experiment(6, 5, 30).unwrap();
    let b = run_experiment(6, 5, 30).unwrap();
    assert_eq!(a.len(), b.len());
    for (x, y) in a.iter().zip(b.iter()) {
        assert_eq!((x.step, x.resolution, x.samples), (y.step, y.resolution, y.samples));
    }
}
