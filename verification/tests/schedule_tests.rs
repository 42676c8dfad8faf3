use pairwise_rank::pair::Pair;
use pairwise_rank::schedule::{
    gen_min_questions, replace_skipped_pair, Phase, Response, ScheduleError, Scheduler, Step,
};

fn sp(a: usize, b: usize) -> Pair {
    Pair { a, b }
}

fn uf_root(parent: &mut Vec<usize>, x: usize) -> usize {
    if parent[x] == x {
        x
    } else {
        let r = uf_root(parent, parent[x]);
        parent[x] = r;
        r
    }
}

fn all_connected(n: usize, edges: &[Pair]) -> bool {
    let mut parent: Vec<usize> = (0..n).collect();
    for e in edges {
        let ra = uf_root(&mut parent, e.a);
        let rb = uf_root(&mut parent, e.b);
        parent[ra] = rb;
    }
    let r0 = uf_root(&mut parent, 0);
    (0..n).all(|v| uf_root(&mut parent, v) == r0)
}

#[test]
fn spanning_pairs_connect_all_entities() {
    for n in [2usize, 3, 6, 9] {
        let pairs = gen_min_questions(n);
        assert_eq!(pairs.len(), n - 1);
        for p in &pairs {
            assert!(p.a < n && p.b < n && p.a != p.b);
        }
        assert!(all_connected(n, &pairs));
    }
}

#[test]
fn spanning_pairs_never_repeat() {
    let pairs = gen_min_questions(8);
    for i in 0..pairs.len() {
        for j in (i + 1)..pairs.len() {
            let same = (pairs[i].a == pairs[j].a && pairs[i].b == pairs[j].b) || (pairs[i].a
                == pairs[j].b && pairs[i].b == pairs[j].a);
            assert!(!same);
        }
    }
}

#[test]
fn replacement_restores_connectivity() {
    // answered and upcoming form two groups; the skipped pair bridged them
    let upcoming = vec![sp(0, 1)];
    let answered = vec![sp(2, 3)];
    let skipped = vec![sp(1, 2)];
    let q = replace_skipped_pair(&upcoming, &skipped, &answered, sp(1, 2), 4)
        .expect("a replacement must exist");
    assert!([0, 1].contains(&q.a) && [2, 3].contains(&q.b));
    assert!(!(q.a == 1 && q.b == 2));
    let edges = vec![sp(0, 1), sp(2, 3), q];
    assert!(all_connected(4, &edges));
}

#[test]
fn replacement_exhausted_when_all_cross_pairs_skipped() {
    let upcoming: Vec<Pair> = vec![];
    let answered = vec![sp(0, 1)];
    let skipped = vec![sp(1, 2), sp(0, 2)];
    let r = replace_skipped_pair(&upcoming, &skipped, &answered, sp(1, 2), 3);
    assert!(r.is_none());
}

#[test]
fn two_entities_skip_exhausts() {
    let mut sched = Scheduler::<f64>::new(2);
    let pair = match sched.next_step() {
        Step::Ask(p) => p,
        Step::Finished => panic!("expected a question"),
    };
    assert!(pair.a < 2 && pair.b < 2 && pair.a != pair.b);
    assert_eq!(sched.submit(Response::Skip), Err(ScheduleError::ScheduleExhausted));
    assert_eq!(sched.current_phase(), Phase::Failed);
    assert_eq!(sched.next_step(), Step::Finished);
}

#[test]
fn quit_during_spanning_aborts() {
    let mut sched = Scheduler::<f64>::new(3);
    match sched.next_step() {
        Step::Ask(_) => {},
        Step::Finished => panic!("expected a question"),
    }
    assert_eq!(sched.submit(Response::Quit), Err(ScheduleError::AbortedBySpanningQuit));
    assert_eq!(sched.current_phase(), Phase::Failed);
    assert_eq!(sched.next_step(), Step::Finished);
    assert_eq!(sched.observations().len(), 0);
}

#[test]
fn quit_during_adaptive_completes() {
    let mut sched = Scheduler::<f64>::new(3);
    loop {
        match sched.next_step() {
            Step::Ask(_) => {
                if sched.current_phase() == Phase::Spanning {
                    sched.submit(Response::Value(1.0)).unwrap();
                } else {
                    sched.submit(Response::Quit).unwrap();
                }
            },
            Step::Finished => break,
        }
    }
    assert_eq!(sched.current_phase(), Phase::Done);
    assert_eq!(sched.observations().len(), 2);
}

#[test]
fn full_session_asks_every_pair_once() {
    let mut sched = Scheduler::<f64>::new(4);
    let mut asked = 0usize;
    loop {
        match sched.next_step() {
            Step::Ask(_) => {
                asked += 1;
                sched.submit(Response::Value(2.0)).unwrap();
            },
            Step::Finished => break,
        }
    }
    assert_eq!(asked, 6);
    assert_eq!(sched.current_phase(), Phase::Done);
    assert_eq!(sched.observations().len(), 6);
    for (ob, p) in sched.observations().iter().zip(sched.answered_pairs().iter()) {
        assert_eq!(ob.i, p.a);
        assert_eq!(ob.j, p.b);
        assert_eq!(ob.ratio, 2.0);
    }
}

#[test]
fn adaptive_skips_need_no_replacement() {
    let mut sched = Scheduler::<f64>::new(3);
    loop {
        match sched.next_step() {
            Step::Ask(_) => {
                let resp = if sched.current_phase() == Phase::Spanning {
                    Response::Value(1.0)
                } else {
                    Response::Skip
                };
                sched.submit(resp).unwrap();
            },
            Step::Finished => break,
        }
    }
    assert_eq!(sched.current_phase(), Phase::Done);
    assert_eq!(sched.observations().len(), 2);
    assert_eq!(sched.skipped_pairs().len(), 1);
}

#[test]
fn confidence_signal_reports_min_links() {
    let mut sched = Scheduler::<f64>::new(3);
    let mut saw: Option<usize> = None;
    loop {
        match sched.next_step() {
            Step::Ask(_) => {
                if sched.current_phase() == Phase::Adaptive {
                    saw = sched.confidence_signal();
                }
                sched.submit(Response::Value(1.0)).unwrap();
            },
            Step::Finished => break,
        }
    }
    // after the two spanning answers the one remaining pair joins the two
    // chain ends, each touching one answered pair: (1 + 1) / 2 == 1
    assert_eq!(saw, Some(1));
}

#[test]
fn adaptive_prefers_least_connected() {
    let mut sched = Scheduler::<f64>::new(4);
    loop {
        match sched.next_step() {
            Step::Ask(p) => {
                if sched.current_phase() == Phase::Adaptive {
                    let answered = sched.answered_pairs().clone();
                    let skipped = sched.skipped_pairs().clone();
                    let cnt = |x: usize| answered.iter().filter(|q| q.a == x || q.b == x).count();
                    let links = |q: &Pair| (cnt(q.a) + cnt(q.b)) / 2;
                    let proposed = links(&p);
                    for a in 0..4usize {
                        for b in (a + 1)..4usize {
                            let recorded = |list: &Vec<Pair>|
                                list.iter().any(|q| (q.a == a && q.b == b) || (q.a == b && q.b
                                    == a));
                            if !recorded(&answered) && !recorded(&skipped) {
                                assert!(proposed <= links(&Pair { a, b }));
                            }
                        }
                    }
                    break;
                }
                sched.submit(Response::Value(1.0)).unwrap();
            },
            Step::Finished => break,
        }
    }
}
