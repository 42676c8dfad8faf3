use pairwise_rank::system::{build_system, Entry, Observation};

#[test]
fn build_system_layout() {
    let obs = vec![
        Observation { i: 0, j: 3, ratio: 5.9f64 },
        Observation { i: 1, j: 2, ratio: 2.1 },
    ];
    let sys = build_system(4, 3, &obs);
    assert_eq!(sys.cols, 4);
    assert_eq!(sys.rows.len(), 3);
    assert_eq!(sys.rhs, vec![true, false, false]);
    for row in &sys.rows {
        assert_eq!(row.len(), 4);
    }
    // anchor row: one at the anchor column, zero elsewhere
    assert!(matches!(sys.rows[0][0], Entry::Zero));
    assert!(matches!(sys.rows[0][1], Entry::Zero));
    assert!(matches!(sys.rows[0][2], Entry::Zero));
    assert!(matches!(sys.rows[0][3], Entry::One));
    // first observation: one at column 0, negated 5.9 at column 3
    assert!(matches!(sys.rows[1][0], Entry::One));
    assert!(matches!(sys.rows[1][1], Entry::Zero));
    assert!(matches!(sys.rows[1][2], Entry::Zero));
    match sys.rows[1][3] {
        Entry::NegRatio(v) => assert_eq!(v, 5.9),
        _ => panic!("expected the negated ratio"),
    }
    // second observation: one at column 1, negated 2.1 at column 2
    assert!(matches!(sys.rows[2][0], Entry::Zero));
    assert!(matches!(sys.rows[2][1], Entry::One));
    match sys.rows[2][2] {
        Entry::NegRatio(v) => assert_eq!(v, 2.1),
        _ => panic!("expected the negated ratio"),
    }
    assert!(matches!(sys.rows[2][3], Entry::Zero));
}

#[test]
fn build_system_no_observations() {
    let obs: Vec<Observation<f64>> = vec![];
    let sys = build_system(1, 0, &obs);
    assert_eq!(sys.cols, 1);
    assert_eq!(sys.rows.len(), 1);
    assert!(matches!(sys.rows[0][0], Entry::One));
    assert_eq!(sys.rhs, vec![true]);
}

#[test]
fn build_system_anchor_not_last() {
    let obs = vec![Observation { i: 1, j: 0, ratio: 2.0f64 }];
    let sys = build_system(3, 1, &obs);
    assert!(matches!(sys.rows[0][0], Entry::Zero));
    assert!(matches!(sys.rows[0][1], Entry::One));
    assert!(matches!(sys.rows[0][2], Entry::Zero));
    assert!(matches!(sys.rows[1][1], Entry::One));
    assert!(matches!(sys.rows[1][0], Entry::NegRatio(_)));
}
