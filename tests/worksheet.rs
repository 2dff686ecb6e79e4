use worksheet::builder::OpsBuilder;
use worksheet::generate::{
    build_worksheet, candidate, generate_ops, generate_sub_to_nine, generate_sub_with_nine,
    worksheet_lines, GenError, WorksheetConfig,
};
use worksheet::problem::{is_excluded, Op, Operation};
use worksheet::random::RandomSource;
use worksheet::render::render;

fn op(a: u32, b: u32, op: Op) -> Operation {
    Operation { a, b, op }
}

fn default_config() -> WorksheetConfig {
    WorksheetConfig { count: 20, lo: 1, hi: 19, sub_nine: 5, to_nine: 5 }
}

fn assert_unique(ops: &[Operation]) {
    for i in 0..ops.len() {
        for j in 0..ops.len() {
            if i == j {
                continue;
            }
            let (p, q) = (ops[i], ops[j]);
            assert!(!(p.a == q.a && p.b == q.b && p.op == q.op), "{:?} twice", p);
            if p.op == Op::Add && q.op == Op::Add {
                assert!(!(p.a == q.b && p.b == q.a), "{:?} and {:?}", p, q);
            }
        }
    }
}

fn assert_general(p: &Operation, lo: u32, hi: u32) {
    assert!(lo <= p.a && p.a <= hi && lo <= p.b && p.b <= hi, "{:?}", p);
    assert!(p.a != p.b && p.a + 1 != p.b && p.b + 1 != p.a, "{:?}", p);
    assert!(p.a != 1 && p.b != 1, "{:?}", p);
    if p.op == Op::Sub {
        assert!(p.a >= p.b, "{:?}", p);
    }
}

#[test]
fn render_subtraction_pads_first_operand() {
    assert_eq!(render(&op(8, 12, Op::Sub)), " 8 - 12 =");
}

#[test]
fn render_addition_pads_second_operand() {
    assert_eq!(render(&op(15, 7, Op::Add)), "15 +  7 =");
}

#[test]
fn render_two_single_digits_and_large_numbers() {
    assert_eq!(render(&op(3, 5, Op::Add)), " 3 +  5 =");
    assert_eq!(render(&op(10, 10, Op::Sub)), "10 - 10 =");
    assert_eq!(render(&op(0, 0, Op::Add)), " 0 +  0 =");
    assert_eq!(render(&op(4294967295, 123, Op::Sub)), "4294967295 - 123 =");
}

#[test]
fn exclusion_rule() {
    assert!(is_excluded(5, 5));
    assert!(is_excluded(5, 6));
    assert!(is_excluded(6, 5));
    assert!(is_excluded(1, 9));
    assert!(is_excluded(9, 1));
    assert!(is_excluded(0, 1));
    assert!(!is_excluded(0, 2));
    assert!(!is_excluded(4, 7));
    assert!(!is_excluded(u32::MAX, 0));
}

#[test]
fn candidate_decisions() {
    assert_eq!(candidate(5, 3, true), Some(op(5, 3, Op::Add)));
    assert_eq!(candidate(3, 5, true), Some(op(3, 5, Op::Add)));
    assert_eq!(candidate(5, 3, false), Some(op(5, 3, Op::Sub)));
    assert_eq!(candidate(3, 5, false), None);
    assert_eq!(candidate(4, 4, true), None);
    assert_eq!(candidate(4, 5, true), None);
    assert_eq!(candidate(1, 7, true), None);
}

#[test]
fn add_ops_drops_commuted_additions() {
    let b = OpsBuilder::new().add_ops(vec![op(5, 3, Op::Add), op(3, 5, Op::Add), op(5, 3, Op::Add)]);
    assert_eq!(b.operations(), &vec![op(5, 3, Op::Add)]);
}

#[test]
fn add_ops_keeps_subtraction_beside_addition() {
    let b = OpsBuilder::new()
        .add_ops(vec![op(12, 7, Op::Sub), op(12, 7, Op::Add)])
        .add_ops(vec![op(7, 12, Op::Add), op(12, 7, Op::Sub), op(8, 4, Op::Sub)]);
    assert_eq!(b.operations(), &vec![op(12, 7, Op::Sub), op(12, 7, Op::Add), op(8, 4, Op::Sub)]);
    assert_eq!(b.len(), 3);
}

#[test]
fn offer_reports_admission() {
    let mut b = OpsBuilder::new();
    assert!(b.offer(op(9, 4, Op::Add)));
    assert!(!b.offer(op(4, 9, Op::Add)));
    assert!(b.offer(op(9, 4, Op::Sub)));
    assert!(!b.offer(op(9, 4, Op::Sub)));
    assert!(b.offer(op(4, 4, Op::Sub)));
    assert_eq!(b.len(), 3);
}

#[test]
fn lines_follow_operations() {
    let b = OpsBuilder::new().add_ops(vec![op(15, 7, Op::Add), op(8, 2, Op::Sub)]);
    assert_eq!(b.lines(), vec!["15 +  7 =".to_string(), " 8 -  2 =".to_string()]);
}

#[test]
fn general_generator_obeys_rules() {
    for seed in 0..20u64 {
        let mut rng = RandomSource::seeded(seed);
        let ops = generate_ops(&mut rng, 20, 1, 19).unwrap();
        assert_eq!(ops.len(), 20);
        assert_unique(&ops);
        for p in &ops {
            assert_general(p, 1, 19);
        }
    }
}

#[test]
fn general_generator_uses_the_range() {
    let mut rng = RandomSource::seeded(11);
    let ops = generate_ops(&mut rng, 30, 2, 19).unwrap();
    let distinct_a: std::collections::HashSet<u32> = ops.iter().map(|p| p.a).collect();
    assert!(distinct_a.len() > 3);
    assert!(ops.iter().any(|p| p.op == Op::Add));
    assert!(ops.iter().any(|p| p.op == Op::Sub));
}

#[test]
fn general_generator_empty_range() {
    let mut rng = RandomSource::seeded(1);
    assert_eq!(generate_ops(&mut rng, 3, 10, 9), Err(GenError::EmptyRange));
}

#[test]
fn general_generator_zero_count() {
    let mut rng = RandomSource::seeded(1);
    assert_eq!(generate_ops(&mut rng, 0, 2, 9), Err(GenError::NoProblems));
}

#[test]
fn general_generator_capacity() {
    // 2..=4 allows only 2 + 4 (either order) and 4 - 2
    let mut rng = RandomSource::seeded(5);
    assert_eq!(generate_ops(&mut rng, 3, 2, 4), Err(GenError::CapacityExceeded));
    let ops = generate_ops(&mut rng, 2, 2, 4).unwrap();
    assert_eq!(ops.len(), 2);
    assert!(ops.contains(&op(4, 2, Op::Sub)));
    assert!(ops.contains(&op(2, 4, Op::Add)) || ops.contains(&op(4, 2, Op::Add)));
}

#[test]
fn subtract_nine_problems() {
    let mut rng = RandomSource::seeded(3);
    let ops = generate_sub_with_nine(&mut rng, 5).unwrap();
    assert_eq!(ops.len(), 5);
    assert_unique(&ops);
    for p in &ops {
        assert_eq!(p.op, Op::Sub);
        assert_eq!(p.b, 9);
        assert!(11 <= p.a && p.a <= 18);
    }
}

#[test]
fn subtract_nine_all_eight() {
    let mut rng = RandomSource::seeded(4);
    let mut a: Vec<u32> = generate_sub_with_nine(&mut rng, 8).unwrap().iter().map(|p| p.a).collect();
    a.sort();
    assert_eq!(a, vec![11, 12, 13, 14, 15, 16, 17, 18]);
}

#[test]
fn subtract_nine_capacity() {
    let mut rng = RandomSource::seeded(4);
    assert_eq!(generate_sub_with_nine(&mut rng, 9), Err(GenError::CapacityExceeded));
    assert_eq!(generate_sub_with_nine(&mut rng, 0), Ok(vec![]));
    assert_eq!(generate_sub_to_nine(&mut rng, 0), Ok(vec![]));
}

#[test]
fn result_nine_problems() {
    let mut rng = RandomSource::seeded(6);
    let ops = generate_sub_to_nine(&mut rng, 8).unwrap();
    assert_eq!(ops.len(), 8);
    assert_unique(&ops);
    for p in &ops {
        assert_eq!(p.op, Op::Sub);
        assert_eq!(p.a - p.b, 9);
        assert!(11 <= p.a && p.a <= 18);
    }
    assert_eq!(generate_sub_to_nine(&mut rng, 9), Err(GenError::CapacityExceeded));
}

#[test]
fn worksheet_has_requested_count() {
    for seed in 0..10u64 {
        let mut rng = RandomSource::seeded(seed);
        let b = build_worksheet(&mut rng, &default_config()).unwrap();
        assert_eq!(b.len(), 30);
        assert_unique(b.operations());
        let subs_nine = b.operations().iter().filter(|p| p.op == Op::Sub && p.b == 9 && p.a >= 11 && p.a <= 18).count();
        assert!(subs_nine >= 5);
        for p in b.operations() {
            if p.op == Op::Sub {
                assert!(p.a >= p.b);
            }
        }
    }
}

#[test]
fn worksheet_lines_count() {
    let mut rng = RandomSource::seeded(42);
    let lines = worksheet_lines(&mut rng, &default_config()).unwrap();
    assert_eq!(lines.len(), 30);
    for line in &lines {
        assert!(line.ends_with(" ="));
        assert!(line.contains(" + ") || line.contains(" - "));
    }
}

#[test]
fn worksheet_is_repeatable_from_seed() {
    let mut r1 = RandomSource::seeded(77);
    let mut r2 = RandomSource::seeded(77);
    assert_eq!(worksheet_lines(&mut r1, &default_config()), worksheet_lines(&mut r2, &default_config()));
}

#[test]
fn worksheet_configuration_errors() {
    let mut rng = RandomSource::seeded(0);
    let mut cfg = default_config();
    cfg.lo = 20;
    assert_eq!(build_worksheet(&mut rng, &cfg).err(), Some(GenError::EmptyRange));
    let cfg = WorksheetConfig { count: 0, lo: 1, hi: 19, sub_nine: 0, to_nine: 0 };
    assert_eq!(build_worksheet(&mut rng, &cfg).err(), Some(GenError::NoProblems));
    let cfg = WorksheetConfig { count: 1, lo: 1, hi: 19, sub_nine: 9, to_nine: 0 };
    assert_eq!(build_worksheet(&mut rng, &cfg).err(), Some(GenError::CapacityExceeded));
    let cfg = WorksheetConfig { count: 0, lo: 1, hi: 19, sub_nine: 0, to_nine: 9 };
    assert_eq!(worksheet_lines(&mut rng, &cfg), Err(GenError::CapacityExceeded));
}

#[test]
fn shuffle_keeps_problems() {
    let ops = vec![op(2, 5, Op::Add), op(9, 4, Op::Sub), op(13, 9, Op::Sub), op(7, 3, Op::Add)];
    let mut rng = RandomSource::seeded(9);
    let b = OpsBuilder::new().add_ops(ops.clone()).shuffle(&mut rng);
    let mut got = b.operations().clone();
    let mut want = ops;
    got.sort_by_key(|p| (p.a, p.b, p.op == Op::Add));
    want.sort_by_key(|p| (p.a, p.b, p.op == Op::Add));
    assert_eq!(got, want);
}

#[test]
fn shuffle_changes_order_sometimes() {
    let ops: Vec<Operation> = (2..12).map(|a| op(a + 20, a, Op::Sub)).collect();
    let mut rng = RandomSource::seeded(1);
    let moved = (0..20).any(|_| OpsBuilder::new().add_ops(ops.clone()).shuffle(&mut rng).operations() != &ops);
    assert!(moved);
}

#[test]
fn shuffle_is_fair() {
    let ops = vec![op(2, 5, Op::Add), op(9, 4, Op::Sub), op(13, 9, Op::Sub)];
    let runs = 6000usize;
    let mut counts = [[0usize; 3]; 3];
    let mut rng = RandomSource::seeded(2024);
    for _ in 0..runs {
        let b = OpsBuilder::new().add_ops(ops.clone()).shuffle(&mut rng);
        for (pos, p) in b.operations().iter().enumerate() {
            let which = ops.iter().position(|q| q == p).unwrap();
            counts[pos][which] += 1;
        }
    }
    let expected = runs as f64 / 3.0;
    let mut chi2 = 0.0f64;
    for row in counts.iter() {
        for &c in row.iter() {
            let d = c as f64 - expected;
            chi2 += d * d / expected;
        }
    }
    // 4 degrees of freedom; 18.47 is the 0.001 critical value
    assert!(chi2 < 18.47, "chi-square {} with counts {:?}", chi2, counts);
}

#[test]
fn general_generator_fills_whole_capacity() {
    // 2..=6 holds six valid operand pairs: six additions and six subtractions
    let mut rng = RandomSource::seeded(8);
    let ops = generate_ops(&mut rng, 12, 2, 6).unwrap();
    assert_eq!(ops.len(), 12);
    assert_unique(&ops);
    for p in &ops {
        assert_general(p, 2, 6);
    }
    assert_eq!(generate_ops(&mut rng, 13, 2, 6), Err(GenError::CapacityExceeded));
}

#[test]
fn apply_draws_swaps_from_the_end() {
    let p0 = op(2, 5, Op::Add);
    let p1 = op(9, 4, Op::Sub);
    let p2 = op(13, 9, Op::Sub);
    let b = OpsBuilder::new().add_ops(vec![p0, p1, p2]);
    // swap 2 with 1, then 1 with 0
    let r = b.apply_draws(&vec![0, 0, 1]);
    assert_eq!(r.operations(), &vec![p2, p0, p1]);
    let b = OpsBuilder::new().add_ops(vec![p0, p1, p2]);
    let r = b.apply_draws(&vec![0, 1, 2]);
    assert_eq!(r.operations(), &vec![p0, p1, p2]);
    let b = OpsBuilder::new().add_ops(vec![p0, p1, p2]);
    let r = b.apply_draws(&vec![0, 1, 0]);
    assert_eq!(r.operations(), &vec![p2, p1, p0]);
}

#[test]
fn worksheet_of_special_problems_succeeds() {
    for seed in 0..20u64 {
        let mut rng = RandomSource::seeded(seed);
        let cfg = WorksheetConfig { count: 0, lo: 1, hi: 19, sub_nine: 8, to_nine: 7 };
        let b = build_worksheet(&mut rng, &cfg).unwrap();
        assert_eq!(b.len(), 15);
        assert_unique(b.operations());
        let cfg = WorksheetConfig { count: 0, lo: 1, hi: 19, sub_nine: 0, to_nine: 8 };
        assert_eq!(worksheet_lines(&mut rng, &cfg).unwrap().len(), 8);
    }
}

#[test]
fn eight_nines_are_all_of_them() {
    let mut rng = RandomSource::seeded(21);
    let mut got: Vec<(u32, u32)> = generate_sub_to_nine(&mut rng, 8).unwrap().iter().map(|p| (p.a, p.b)).collect();
    got.sort();
    assert_eq!(got, vec![(11, 2), (12, 3), (13, 4), (14, 5), (15, 6), (16, 7), (17, 8), (18, 9)]);
}
