use pairwise_rank::schedule::{Phase, Response, Scheduler, Step};
use pairwise_rank::system::{build_system, Entry, LinearSystem, Observation};

/// Turns the symbolic system into a floating-point matrix and right-hand side.
fn materialize(sys: &LinearSystem<f64>) -> (Vec<Vec<f64>>, Vec<f64>) {
    let a: Vec<Vec<f64>> = sys
        .rows
        .iter()
        .map(|row| {
            row.iter()
                .map(|e| match e {
                    Entry::Zero => 0.0,
                    Entry::One => 1.0,
                    Entry::NegRatio(v) => -v,
                })
                .collect()
        })
        .collect();
    let b: Vec<f64> = sys.rhs.iter().map(|&x| if x { 1.0 } else { 0.0 }).collect();
    (a, b)
}

/// Ordinary least squares by normal equations and Gaussian elimination,
/// normalized so the anchor entity's rating is exactly one.
fn solve_normalized(sys: &LinearSystem<f64>, anchor: usize) -> Vec<f64> {
    let (a, b) = materialize(sys);
    let n = sys.cols;
    let mut m = vec![vec![0.0f64; n + 1]; n];
    for r in 0..n {
        for c in 0..n {
            m[r][c] = (0..a.len()).map(|k| a[k][r] * a[k][c]).sum();
        }
        m[r][n] = (0..a.len()).map(|k| a[k][r] * b[k]).sum();
    }
    for col in 0..n {
        let piv = (col..n)
            .max_by(|&x, &y| m[x][col].abs().partial_cmp(&m[y][col].abs()).unwrap())
            .unwrap();
        m.swap(col, piv);
        assert!(m[col][col].abs() > 1e-12, "singular system");
        for r in 0..n {
            if r != col {
                let f = m[r][col] / m[col][col];
                for c in col..=n {
                    m[r][c] -= f * m[col][c];
                }
            }
        }
    }
    let sol: Vec<f64> = (0..n).map(|r| m[r][n] / m[r][r]).collect();
    let anchor_val = sol[anchor];
    sol.iter().map(|v| v / anchor_val).collect()
}

fn scenario_observations() -> Vec<Observation<f64>> {
    vec![
        Observation { i: 0, j: 3, ratio: 5.9 },
        Observation { i: 0, j: 2, ratio: 3.1 },
        Observation { i: 0, j: 1, ratio: 1.55 },
        Observation { i: 1, j: 2, ratio: 2.1 },
        Observation { i: 1, j: 3, ratio: 3.9 },
        Observation { i: 2, j: 3, ratio: 1.9 },
    ]
}

#[test]
fn four_entity_scenario_matches_least_squares_fit() {
    let sys = build_system(4, 3, &scenario_observations());
    let ratings = solve_normalized(&sys, 3);
    let expected = [5.919020307645392, 3.871010369105742, 1.8893531776846055, 1.0];
    for k in 0..4 {
        assert!((ratings[k] - expected[k]).abs() < 1e-6, "rating {} was {}", k, ratings[k]);
    }
    assert!((ratings[0] - 5.9).abs() < 0.1);
    assert!((ratings[1] - 3.9).abs() < 0.1);
    assert!((ratings[2] - 1.9).abs() < 0.1);
    assert_eq!(ratings[3], 1.0);
}

#[test]
fn noise_free_spanning_tree_recovers_ground_truth() {
    let truth = [2.5, 0.5, 4.0, 1.0];
    let chain = [(0usize, 1usize), (1, 2), (2, 3)];
    let obs: Vec<Observation<f64>> = chain
        .iter()
        .map(|&(i, j)| Observation { i, j, ratio: truth[i] / truth[j] })
        .collect();
    let sys = build_system(4, 3, &obs);
    let ratings = solve_normalized(&sys, 3);
    for k in 0..4 {
        assert!((ratings[k] - truth[k]).abs() < 1e-9, "rating {} was {}", k, ratings[k]);
    }
}

#[test]
fn solving_twice_is_bit_identical() {
    let sys = build_system(4, 3, &scenario_observations());
    let first = solve_normalized(&sys, 3);
    let second = solve_normalized(&sys, 3);
    for k in 0..4 {
        assert_eq!(first[k].to_bits(), second[k].to_bits());
    }
}

#[test]
fn spanning_set_alone_solves() {
    // every comparison after the minimal spanning set is skipped; the system
    // must still solve and recover the exact ratings
    let truth = [3.0, 1.5, 0.75, 2.0, 1.0];
    let n = 5usize;
    let mut sched = Scheduler::<f64>::new(n);
    loop {
        match sched.next_step() {
            Step::Ask(p) => {
                let resp = if sched.current_phase() == Phase::Spanning {
                    Response::Value(truth[p.a] / truth[p.b])
                } else {
                    Response::Skip
                };
                sched.submit(resp).unwrap();
            },
            Step::Finished => break,
        }
    }
    assert_eq!(sched.current_phase(), Phase::Done);
    let obs = sched.into_observations();
    assert_eq!(obs.len(), n - 1);
    let sys = build_system(n, n - 1, &obs);
    let ratings = solve_normalized(&sys, n - 1);
    for k in 0..n {
        assert!((ratings[k] - truth[k]).abs() < 1e-9, "rating {} was {}", k, ratings[k]);
    }
    assert_eq!(ratings[n - 1], 1.0);
}

#[test]
fn full_session_ratings_normalize_to_anchor() {
    let truth = [2.0, 5.0, 0.5, 1.0];
    let mut sched = Scheduler::<f64>::new(4);
    loop {
        match sched.next_step() {
            Step::Ask(p) => {
                sched.submit(Response::Value(truth[p.a] / truth[p.b])).unwrap();
            },
            Step::Finished => break,
        }
    }
    let obs = sched.into_observations();
    assert_eq!(obs.len(), 6);
    let sys = build_system(4, 3, &obs);
    let ratings = solve_normalized(&sys, 3);
    assert_eq!(ratings[3], 1.0);
    for k in 0..4 {
        assert!((ratings[k] - truth[k]).abs() < 1e-9, "rating {} was {}", k, ratings[k]);
    }
}

#[test]
fn skip_in_spanning_is_replaced_and_solves() {
    let truth = [4.0, 2.0, 1.0];
    let mut sched = Scheduler::<f64>::new(3);
    let mut first = true;
    loop {
        match sched.next_step() {
            Step::Ask(p) => {
                let resp = if first {
                    first = false;
                    Response::Skip
                } else {
                    Response::Value(truth[p.a] / truth[p.b])
                };
                sched.submit(resp).unwrap();
            },
            Step::Finished => break,
        }
    }
    assert_eq!(sched.current_phase(), Phase::Done);
    assert_eq!(sched.skipped_pairs().len(), 1);
    let obs = sched.into_observations();
    assert!(obs.len() >= 2);
    let sys = build_system(3, 2, &obs);
    let ratings = solve_normalized(&sys, 2);
    for k in 0..3 {
        assert!((ratings[k] - truth[k]).abs() < 1e-9, "rating {} was {}", k, ratings[k]);
    }
    assert_eq!(ratings[2], 1.0);
}
