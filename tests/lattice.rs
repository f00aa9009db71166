use forest_fire::{Lattice, LatticePoint, SweepResult};
use LatticePoint::{Burning as B, Empty as E, Tree as T};

fn grid(n: usize, rows: &[&str]) -> Lattice {
    let draws: Vec<usize> =
        rows.iter().flat_map(|r| r.chars().map(|c| if c == 'X' { 0 } else { 1 })).collect();
    assert_eq!(draws.len(), n * n);
    Lattice::from_draws(n, 1, &draws)
}

fn cells(l: &Lattice) -> Vec<LatticePoint> {
    let n = l.side();
    let mut v = Vec::new();
    for i in 0..n {
        for j in 0..n {
            v.push(l.get(i, j));
        }
    }
    v
}

#[test]
fn from_draws_seeds_first_row_burning() {
    let l = grid(3, &["X.X", "X.X", "..X"]);
    assert_eq!(l.side(), 3);
    assert_eq!(cells(&l), vec![B, E, B, T, E, T, E, E, T]);
}

#[test]
fn from_draws_compares_each_draw_with_the_threshold() {
    let draws = vec![0, 5, 9, 3, 4, 7, 2, 6, 8];
    let l = Lattice::from_draws(3, 5, &draws);
    assert_eq!(cells(&l), vec![B, E, E, T, T, E, T, E, E]);
    let l = Lattice::from_draws(3, 0, &draws);
    assert!(cells(&l).iter().all(|c| *c == E));
    let l = Lattice::from_draws(3, 10, &draws);
    assert_eq!(cells(&l), vec![B, B, B, T, T, T, T, T, T]);
}

#[test]
fn higher_threshold_keeps_occupied_sites() {
    let draws: Vec<usize> = (0..25).map(|i| (i * 7) % 10).collect();
    for lo in 0..=10 {
        for hi in lo..=10 {
            let a = cells(&Lattice::from_draws(5, lo, &draws));
            let b = cells(&Lattice::from_draws(5, hi, &draws));
            for (x, y) in a.iter().zip(b.iter()) {
                if *x != E {
                    assert_eq!(x, y);
                }
            }
        }
    }
}

#[test]
fn full_lattice_of_side_three_burns_in_one_sweep() {
    let mut l = grid(3, &["XXX", "XXX", "XXX"]);
    assert_eq!(l.sweep(), SweepResult::Ignited);
    assert!(cells(&l).iter().all(|c| *c == LatticePoint::Burning));
    assert_eq!(l.sweep(), SweepResult::Identity);
}

#[test]
fn full_lattice_of_side_one_needs_no_sweep() {
    let mut l = grid(1, &["X"]);
    assert_eq!(l.get(0, 0), LatticePoint::Burning);
    assert_eq!(l.burn_out(), 0);
}

#[test]
fn ignition_cascades_along_the_scan_within_one_sweep() {
    // Down the first column and along the last row in the first sweep;
    // upwards to (1, 2) only in the second.
    let mut l = grid(3, &["X..", "X.X", "XXX"]);
    assert_eq!(l.sweep(), SweepResult::Ignited);
    assert_eq!(cells(&l), vec![B, E, E, B, E, T, B, B, B]);
    assert_eq!(l.sweep(), SweepResult::Ignited);
    assert_eq!(l.get(1, 2), B);
    assert_eq!(l.sweep(), SweepResult::Identity);
}

#[test]
fn burn_out_counts_igniting_sweeps() {
    let mut l = grid(3, &["X..", "X.X", "XXX"]);
    assert_eq!(l.burn_out(), 2);
    assert_eq!(l.sweep(), SweepResult::Identity);
}

#[test]
fn isolated_trees_never_ignite() {
    let mut l = grid(3, &["...", "X.X", ".X."]);
    assert_eq!(l.sweep(), SweepResult::Identity);
    assert_eq!(l.burn_out(), 0);
    assert_eq!(l.get(1, 0), LatticePoint::Tree);
}

#[test]
fn empty_lattice_rests_at_once() {
    let mut l = grid(2, &["..", ".."]);
    assert_eq!(l.sweep(), SweepResult::Identity);
}

#[test]
fn generate_with_zero_probability_is_all_empty() {
    for n in 1..6 {
        let l = Lattice::generate(n, 0, 100);
        assert!(cells(&l).iter().all(|c| *c == LatticePoint::Empty));
    }
}

#[test]
fn generate_with_probability_one_fills_the_lattice() {
    let l = Lattice::generate(4, 100, 100);
    for i in 0..4 {
        for j in 0..4 {
            let want = if i == 0 { LatticePoint::Burning } else { LatticePoint::Tree };
            assert_eq!(l.get(i, j), want);
        }
    }
}

#[test]
fn generate_at_one_half_mixes_sites() {
    let l = Lattice::generate(30, 1, 2);
    let c = cells(&l);
    assert_eq!(c.len(), 900);
    assert!(c.iter().any(|x| *x == LatticePoint::Empty));
    assert!(c.iter().any(|x| *x != LatticePoint::Empty));
    for (i, x) in c.iter().enumerate() {
        if i < 30 {
            assert_ne!(*x, LatticePoint::Tree);
        } else {
            assert_ne!(*x, LatticePoint::Burning);
        }
    }
}

#[test]
fn burning_sites_never_revert() {
    for _ in 0..20 {
        let mut l = Lattice::generate(12, 3, 5);
        let mut before = cells(&l);
        for _ in 0..30 {
            l.sweep();
            let after = cells(&l);
            for (a, b) in before.iter().zip(after.iter()) {
                if *a == LatticePoint::Burning {
                    assert_eq!(*b, LatticePoint::Burning);
                }
                if *a == LatticePoint::Empty {
                    assert_eq!(*b, LatticePoint::Empty);
                }
            }
            before = after;
        }
    }
}

#[test]
fn igniting_sweeps_are_at_most_the_sites() {
    for n in 1..10 {
        for step in 0..=4 {
            let mut l = Lattice::generate(n, step, 4);
            assert!(l.burn_out() <= n * n);
        }
    }
}
