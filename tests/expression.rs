use halo2_eval::canonical::Monomial;
use halo2_eval::cost::{CircuitCost, ProofContribution};
use halo2_eval::fft::{fft_schedule, twiddle_tables, FftPass};
use halo2_eval::eval::Columns;
use halo2_eval::expression::{Expression, LookupProveExpression, ProveExpression};
use halo2_eval::field::{fadd, fmul, fneg, MODULUS};
use halo2_eval::unit::ProveExpressionUnit;

fn advice(i: usize, rot: i32) -> ProveExpressionUnit {
    ProveExpressionUnit::Advice { column_index: i, rotation: rot }
}

fn fixed(i: usize, rot: i32) -> ProveExpressionUnit {
    ProveExpressionUnit::Fixed { column_index: i, rotation: rot }
}

fn unit(u: ProveExpressionUnit) -> ProveExpression {
    ProveExpression::Unit(u)
}

fn sum(a: ProveExpression, b: ProveExpression) -> ProveExpression {
    ProveExpression::Sum(Box::new(a), Box::new(b))
}

fn prod(a: ProveExpression, b: ProveExpression) -> ProveExpression {
    ProveExpression::Product(Box::new(a), Box::new(b))
}

fn y(terms: &[(u32, u64)]) -> ProveExpression {
    ProveExpression::Y(terms.to_vec())
}

fn ex_advice(i: usize) -> Expression {
    Expression::Advice { column_index: i, rotation: 0 }
}

fn ex_fixed(i: usize) -> Expression {
    Expression::Fixed { column_index: i, rotation: 0 }
}

fn ex_mul(a: Expression, b: Expression) -> Expression {
    Expression::Product(Box::new(a), Box::new(b))
}

fn ex_add(a: Expression, b: Expression) -> Expression {
    Expression::Sum(Box::new(a), Box::new(b))
}

/// Canonical form as a sorted list, with each term list sorted and
/// zero-free, so that two forms can be compared.
fn normal(c: Vec<Monomial>) -> Vec<(Vec<ProveExpressionUnit>, Vec<(u32, u64)>)> {
    let mut out: Vec<(Vec<ProveExpressionUnit>, Vec<(u32, u64)>)> = c
        .into_iter()
        .map(|(k, mut ys)| {
            ys.sort();
            ys.retain(|t| t.1 % MODULUS != 0);
            (k, ys)
        })
        .filter(|(_, ys)| !ys.is_empty())
        .collect();
    out.sort();
    out
}

fn columns(advice: Vec<Vec<u64>>, fixed: Vec<Vec<u64>>) -> Columns {
    Columns { fixed, advice, instance: vec![] }
}

fn count_ops(e: &ProveExpression) -> usize {
    match e {
        ProveExpression::Unit(_) | ProveExpression::Y(_) => 0,
        ProveExpression::Sum(l, r) | ProveExpression::Product(l, r) => 1 + count_ops(l) + count_ops(r),
    }
}

/// A three-gate circuit over two advice columns and one fixed column.
fn gates() -> ProveExpression {
    let g1 = ex_mul(ex_fixed(0), ex_add(ex_advice(0), ex_advice(1)));
    let g2 = ex_mul(ex_fixed(0), ex_mul(ex_advice(0), ex_advice(1)));
    let g3 = ex_add(
        ex_mul(ex_advice(0), ex_advice(0)),
        Expression::Negated(Box::new(Expression::Scaled(Box::new(ex_advice(1)), 5))),
    );
    ProveExpression::new().add_gate(&g1).add_gate(&g2).add_gate(&g3)
}

#[test]
fn gate_product_plus_constant_is_38() {
    let gate = ex_add(ex_mul(ex_advice(0), ex_advice(1)), Expression::Constant(3));
    let cols = columns(vec![vec![5], vec![7]], vec![]);
    let direct = ProveExpression::from_expr(&gate);
    assert_eq!(direct.evaluate(&cols, 1, 2, 1), vec![38]);
    let acc = ProveExpression::new().add_gate(&gate);
    assert_eq!(acc.evaluate(&cols, 1, 2, 1), vec![38]);
    let plan = ProveExpression::reconstruct(ProveExpression::from_expr(&gate).flatten());
    assert_eq!(plan.evaluate(&cols, 1, 2, 1), vec![38]);
}

#[test]
fn lc_theta_is_left_plus_nine_right() {
    let u = sum(unit(advice(0, 0)), y(&[(0, 4)]));
    let v = prod(unit(advice(1, 1)), unit(advice(0, 0)));
    let a = vec![3, 11, 20, 7];
    let b = vec![2, 5, 9, 13];
    let cols = columns(vec![a.clone(), b.clone()], vec![]);
    let lookup = LookupProveExpression::LcTheta(
        Box::new(LookupProveExpression::Expression(u)),
        Box::new(LookupProveExpression::Expression(v)),
    );
    let out = lookup.evaluate(&cols, 4, 1, 0, 9, 0, 1);
    for i in 0..4 {
        let eu = a[i] + 4;
        let ev = b[(i + 1) % 4] * a[i];
        assert_eq!(out[i], eu + 9 * ev);
    }
}

#[test]
fn lc_beta_and_add_gamma() {
    let cols = columns(vec![vec![6, 1], vec![2, 3]], vec![]);
    let e = LookupProveExpression::AddGamma(Box::new(LookupProveExpression::LcBeta(
        Box::new(LookupProveExpression::Expression(unit(advice(0, 0)))),
        Box::new(LookupProveExpression::Expression(unit(advice(1, 0)))),
    )));
    assert_eq!(e.evaluate(&cols, 2, 1, 10, 0, 100, 1), vec![6 + 20 + 100, 1 + 30 + 100]);
}

#[test]
fn degree_of_leaves_and_nodes() {
    assert_eq!(unit(advice(0, 0)).get_degree(), (1, 0));
    assert_eq!(y(&[(3, 7)]).get_degree(), (0, 0));
    let s = sum(unit(advice(0, 0)), unit(advice(1, 0)));
    assert_eq!(s.get_degree(), (3, 2));
    let p = prod(sum(unit(advice(0, 0)), unit(advice(1, 0))), y(&[(0, 1)]));
    assert_eq!(p.get_degree(), (4, 3));
    assert_eq!(ProveExpression::new().get_degree(), (0, 0));
}

#[test]
fn flatten_sum_is_symmetric() {
    let a = || prod(unit(advice(0, 0)), y(&[(0, 2), (1, 3)]));
    let b = || sum(unit(advice(0, 0)), prod(unit(fixed(1, -1)), unit(advice(0, 0))));
    let ab = normal(sum(a(), b()).flatten());
    let ba = normal(sum(b(), a()).flatten());
    assert_eq!(ab, ba);
    assert_eq!(ab.len(), 2);
}

#[test]
fn flatten_product_is_associative() {
    let a = || sum(unit(advice(0, 0)), y(&[(1, 2)]));
    let b = || sum(unit(fixed(0, 1)), unit(advice(0, 0)));
    let c = || sum(y(&[(0, 5)]), unit(advice(1, 0)));
    let left = normal(prod(prod(a(), b()), c()).flatten());
    let right = normal(prod(a(), prod(b(), c())).flatten());
    assert_eq!(left, right);
}

#[test]
fn flatten_unit_and_y() {
    let c = unit(advice(2, -1)).flatten();
    assert_eq!(c, vec![(vec![advice(2, -1)], vec![(0, 1)])]);
    let c = y(&[(0, 4), (2, 9)]).flatten();
    assert_eq!(c, vec![(vec![], vec![(0, 4), (2, 9)])]);
}

#[test]
fn flatten_merges_equal_monomials() {
    let e = sum(
        prod(unit(advice(1, 0)), unit(advice(0, 0))),
        prod(unit(advice(0, 0)), prod(unit(advice(1, 0)), y(&[(0, 2)]))),
    );
    let c = normal(e.flatten());
    assert_eq!(c, vec![(vec![advice(0, 0), advice(1, 0)], vec![(0, 3)])]);
}

#[test]
fn plan_evaluates_like_the_tree() {
    let n: usize = 4;
    let cols = columns(
        vec![vec![3, 8, 1, 12], vec![5, 0, 7, 2]],
        vec![vec![1, 1, 0, 9]],
    );
    let direct = gates().evaluate(&cols, n, 17, 1);
    let plan = ProveExpression::reconstruct(gates().flatten());
    assert_eq!(plan.evaluate(&cols, n, 17, 1), direct);
}

#[test]
fn plan_uses_no_more_operations_than_naive() {
    let canon = gates().flatten();
    let naive: usize = canon.iter().map(|(k, _)| k.len()).sum::<usize>() + canon.len() - 1;
    let plan = ProveExpression::reconstruct(gates().flatten());
    assert!(count_ops(&plan) <= naive);
}

#[test]
fn plan_pulls_out_most_frequent_cell() {
    // a0*a1 + a0*f0 + a1: a0 and a1 both occur twice; a0 wins the tie.
    let canon = vec![
        (vec![advice(0, 0), advice(1, 0)], vec![(0, 1)]),
        (vec![fixed(0, 0), advice(0, 0)], vec![(0, 1)]),
        (vec![advice(1, 0)], vec![(0, 1)]),
    ];
    let canon: Vec<Monomial> = canon
        .into_iter()
        .map(|(mut k, ys)| {
            k.sort();
            (k, ys)
        })
        .collect();
    let plan = ProveExpression::reconstruct(canon);
    match plan {
        ProveExpression::Sum(l, r) => {
            match *l {
                ProveExpression::Product(u, _) => assert!(matches!(*u, ProveExpression::Unit(x) if x == advice(0, 0))),
                _ => panic!("expected a product"),
            }
            assert!(matches!(*r, ProveExpression::Product(..)));
        }
        _ => panic!("expected a sum"),
    }
}

#[test]
fn single_monomial_powers() {
    let plan = ProveExpression::reconstruct(vec![(vec![advice(0, 0), advice(0, 0), advice(0, 0)], vec![(0, 2)])]);
    let cols = columns(vec![vec![3]], vec![]);
    assert_eq!(plan.evaluate(&cols, 1, 1, 1), vec![54]);
    assert_eq!(count_ops(&plan), 3);
}

#[test]
fn unit_power_chain() {
    let e = ProveExpression::____reconstruct(advice(0, 0), 3);
    assert_eq!(count_ops(&e), 2);
    let cols = columns(vec![vec![2]], vec![]);
    assert_eq!(e.evaluate(&cols, 1, 0, 1), vec![8]);
}

#[test]
fn y_terms_use_powers_of_y() {
    let e = y(&[(0, 1), (1, 2), (3, 1)]);
    let cols = columns(vec![], vec![]);
    assert_eq!(e.evaluate(&cols, 3, 2, 1), vec![13, 13, 13]);
}

#[test]
fn rotation_wraps_around_domain() {
    let cols = columns(vec![vec![10, 20, 30, 40]], vec![]);
    assert_eq!(unit(advice(0, -1)).evaluate(&cols, 4, 0, 1), vec![40, 10, 20, 30]);
    assert_eq!(unit(advice(0, 1)).evaluate(&cols, 4, 0, 2), vec![30, 40, 10, 20]);
    assert_eq!(unit(advice(0, -3)).evaluate(&cols, 4, 0, 3), vec![40, 10, 20, 30]);
}

#[test]
fn negation_and_scaling() {
    let e = Expression::Negated(Box::new(Expression::Scaled(Box::new(ex_advice(0)), 4)));
    let cols = columns(vec![vec![3]], vec![]);
    assert_eq!(ProveExpression::from_expr(&e).evaluate(&cols, 1, 0, 1), vec![MODULUS - 12]);
}

#[test]
fn ys_sum_and_product() {
    let mut l = vec![(0u32, 1u64), (2, 5)];
    ProveExpression::ys_add_assign(&mut l, vec![(2, 7), (1, 4)]);
    l.sort();
    assert_eq!(l, vec![(0, 1), (1, 4), (2, 12)]);
    let mut p = ProveExpression::ys_mul(&vec![(0, 1), (1, 2)], &vec![(0, 3), (1, 1)]);
    p.sort();
    assert_eq!(p, vec![(0, 3), (1, 7), (2, 2)]);
}

#[test]
fn field_operations_reduce() {
    assert_eq!(fneg(1), MODULUS - 1);
    assert_eq!(fneg(0), 0);
    assert_eq!(fadd(MODULUS - 1, 2), 1);
    assert_eq!(fmul(MODULUS - 1, MODULUS - 1), 1);
    assert_eq!(fmul(u64::MAX, 1), u64::MAX - MODULUS);
}

#[test]
fn proof_contribution_length() {
    let c = ProofContribution::new(3, 5);
    assert_eq!(c.len(32, 32), 256);
    assert_eq!(ProofContribution::new(0, 0).len(64, 32), 0);
}

#[test]
fn proof_size_of_small_circuit() {
    let cost = CircuitCost {
        k: 11,
        max_deg: 5,
        advice_columns: 3,
        instance_queries: 1,
        advice_queries: 4,
        fixed_queries: 2,
        lookups: 1,
        permutation_cols: 4,
        point_sets: 3,
    };
    let size = cost.proof_size(2);
    assert_eq!(size.equality, ProofContribution::new(4, 14));
    assert_eq!(size.lookups, ProofContribution::new(6, 10));
    assert_eq!(size.polycomm, ProofContribution::new(23, 2));
    assert_eq!(size.advice, ProofContribution::new(6, 8));
    assert_eq!(size.len(32, 32), 2784);
}

#[test]
fn fft_schedule_splits_bits_by_radix() {
    let p = fft_schedule(20);
    assert_eq!(
        p,
        vec![
            FftPass { log_p: 0, deg: 8, local_work_size: 128, global_work_size: 4096 },
            FftPass { log_p: 8, deg: 8, local_work_size: 128, global_work_size: 4096 },
            FftPass { log_p: 16, deg: 4, local_work_size: 8, global_work_size: 65536 },
        ]
    );
    assert_eq!(fft_schedule(3), vec![FftPass { log_p: 0, deg: 3, local_work_size: 4, global_work_size: 1 }]);
    assert_eq!(fft_schedule(16).len(), 2);
    assert!(fft_schedule(0).is_empty());
}

#[test]
fn twiddle_tables_hold_powers_of_the_generator() {
    let (pq, omegas) = twiddle_tables(2, 3);
    assert_eq!(pq, vec![1, 2, 4, 8]);
    assert_eq!(omegas.len(), 32);
    assert_eq!(&omegas[..6], &[2, 4, 16, 256, 65536, 4294967296]);
    assert_eq!(omegas[6], 4294967295);
    let (pq, _) = twiddle_tables(2, 10);
    assert_eq!(pq.len(), 128);
    assert_eq!(&pq[..3], &[1, 16, 256]);
}

#[test]
fn covers_check_finds_missing_columns() {
    let cols = columns(vec![vec![1, 2], vec![3, 4]], vec![]);
    let e = sum(unit(advice(0, 0)), prod(unit(advice(1, 1)), y(&[(0, 2)])));
    assert!(cols.covers_check(&e, 2));
    assert!(!cols.covers_check(&e, 3));
    assert!(!cols.covers_check(&unit(fixed(0, 0)), 2));
    let plan = ProveExpression::reconstruct(gates().flatten());
    let cols = columns(vec![vec![3, 8], vec![5, 0]], vec![vec![1, 1]]);
    assert!(cols.covers_check(&gates(), 2));
    assert!(cols.covers_check(&plan, 2));
}

#[test]
fn flatten_keys_of_a_product_are_pair_unions() {
    let a = sum(unit(advice(1, 0)), y(&[(0, 1)]));
    let b = sum(unit(advice(0, 0)), unit(fixed(0, 0)));
    let mut keys: Vec<Vec<ProveExpressionUnit>> = prod(a, b).flatten().into_iter().map(|(k, _)| k).collect();
    keys.sort();
    assert_eq!(
        keys,
        vec![
            vec![fixed(0, 0)],
            vec![fixed(0, 0), advice(1, 0)],
            vec![advice(0, 0)],
            vec![advice(0, 0), advice(1, 0)],
        ]
    );
}
