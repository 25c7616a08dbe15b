use std::collections::HashMap;

use pil2_stark_setup::constraint_poly::Boundary;
use pil2_stark_setup::expression::{BoundaryKind, ExprChild, ExprOp, Expression};
use pil2_stark_setup::im_polynomials::{
    add_im_polynomials, calculate_added_cols, calculate_exp_deg, calculate_intermediate_polynomials,
};
use pil2_stark_setup::pilout_info::{ConstraintInfo, SymType, SymbolInfo};

fn make_number(val: &str) -> Expression {
    let mut e = Expression::new(ExprOp::Number);
    e.value = Some(val.to_string());
    e.exp_deg = 0;
    e.dim = 1;
    e
}

fn make_cm(id: usize, stage: usize) -> Expression {
    let mut e = Expression::new(ExprOp::Cm);
    e.id = Some(id);
    e.stage = stage;
    e.dim = 1;
    e.exp_deg = 1;
    e.row_offset = Some(0);
    e
}

fn make_exp_ref(id: usize) -> Expression {
    let mut e = Expression::new(ExprOp::Exp);
    e.id = Some(id);
    e
}

fn make_mul(lhs: usize, rhs: usize, deg: i64) -> Expression {
    let mut e = Expression::new(ExprOp::Mul);
    e.values = vec![ExprChild::Id(lhs), ExprChild::Id(rhs)];
    e.exp_deg = deg;
    e
}

fn every_row() -> Vec<Boundary> {
    vec![Boundary { name: BoundaryKind::EveryRow, offset_min: None, offset_max: None }]
}

#[test]
fn test_calc_exp_deg_leaf() {
    let exprs = vec![make_cm(0, 1)];
    let mut cache = HashMap::new();
    assert_eq!(calculate_exp_deg(&exprs, 0, &[], false, &mut cache), 1);
}

#[test]
fn test_calc_exp_deg_mul() {
    let exprs = vec![make_cm(0, 1), make_cm(1, 1), make_mul(0, 1, 2)];
    let mut cache = HashMap::new();
    assert_eq!(calculate_exp_deg(&exprs, 2, &[], false, &mut cache), 2);
}

#[test]
fn test_calc_exp_deg_with_im_pol() {
    let exprs = vec![make_mul(0, 0, 2), make_cm(0, 1), make_cm(1, 1), make_mul(1, 2, 2), make_exp_ref(3)];
    let mut cache = HashMap::new();
    assert_eq!(calculate_exp_deg(&exprs, 4, &[], false, &mut cache), 2);
    assert_eq!(calculate_exp_deg(&exprs, 4, &[3], false, &mut cache), 1);
}

#[test]
fn test_calc_exp_deg_number() {
    let exprs = vec![make_number("42")];
    let mut cache = HashMap::new();
    assert_eq!(calculate_exp_deg(&exprs, 0, &[], false, &mut cache), 0);
}

#[test]
fn calc_exp_deg_cache_gives_same_degree() {
    let exprs = vec![make_cm(0, 1), make_cm(1, 1), make_mul(0, 1, 2), make_exp_ref(2), make_mul(3, 0, 3)];
    let mut cache = HashMap::new();
    let first = calculate_exp_deg(&exprs, 4, &[], true, &mut cache);
    assert!(cache.contains_key(&4));
    let second = calculate_exp_deg(&exprs, 4, &[], true, &mut cache);
    assert_eq!(first, 3);
    assert_eq!(second, 3);
}

#[test]
fn test_no_im_pols_needed() {
    let exprs = vec![make_cm(0, 1), make_cm(1, 1), make_mul(0, 1, 2)];
    let result = calculate_intermediate_polynomials(&exprs, 2, 3, 1);
    assert!(result.im_exps.is_empty());
    assert_eq!(result.q_deg, 1);
}

#[test]
fn test_im_pols_needed_for_high_degree() {
    let mut exprs = vec![
        make_cm(0, 1),
        make_cm(1, 1),
        make_mul(0, 1, 2),
        make_exp_ref(2),
        make_cm(2, 1),
        make_cm(3, 1),
        make_mul(4, 5, 2),
        make_exp_ref(6),
        make_mul(3, 7, 4),
    ];
    exprs[3].exp_deg = 2;
    exprs[7].exp_deg = 2;
    let result = calculate_intermediate_polynomials(&exprs, 8, 2, 1);
    assert!(!result.im_exps.is_empty());
}

#[test]
fn test_degree_fits_without_im_pols() {
    let exprs = vec![make_cm(0, 1), make_cm(1, 1), make_mul(0, 1, 2)];
    let result = calculate_intermediate_polynomials(&exprs, 2, 3, 1);
    assert!(result.im_exps.is_empty());
    assert_eq!(result.q_deg, 1);
}

#[test]
fn added_cols_counts_quotient_and_intermediates() {
    let exprs = vec![make_cm(0, 1), make_cm(1, 1), make_mul(0, 1, 2)];
    assert_eq!(calculate_added_cols(2, &exprs, &[], 1, 3), 3);
    assert_eq!(calculate_added_cols(2, &exprs, &[2], 2, 3), 7);
}

#[test]
fn test_add_im_pols_creates_q_symbols() {
    let mut expressions = vec![make_cm(0, 1), make_cm(1, 1), make_mul(0, 1, 2)];
    let mut constraints: Vec<ConstraintInfo> = Vec::new();
    let mut symbols: Vec<SymbolInfo> = Vec::new();
    let mut n_commitments: usize = 2;
    let mut c_exp_id: usize = 2;
    let boundaries = every_row();
    let q_dim = add_im_polynomials(
        &mut expressions,
        &mut constraints,
        &mut symbols,
        "test_air",
        0,
        0,
        1,
        &mut n_commitments,
        &mut c_exp_id,
        &[],
        1,
        false,
        &boundaries,
    );
    let q_symbols: Vec<_> = symbols.iter().filter(|s| s.name.starts_with("Q")).collect();
    assert_eq!(q_symbols.len(), 1);
    assert_eq!(q_symbols[0].sym_type, SymType::Witness);
    assert!(q_dim >= 1);
}

#[test]
fn test_add_im_pols_with_im_exp() {
    let mut expressions = vec![
        make_cm(0, 1),
        make_cm(1, 1),
        make_mul(0, 1, 2),
        make_cm(2, 1),
        {
            let mut e = make_exp_ref(2);
            e.exp_deg = 2;
            e
        },
        make_mul(4, 3, 3),
    ];
    let mut constraints: Vec<ConstraintInfo> = Vec::new();
    let mut symbols: Vec<SymbolInfo> = Vec::new();
    let mut n_commitments: usize = 3;
    let mut c_exp_id: usize = 5;
    let boundaries = every_row();
    let _q_dim = add_im_polynomials(
        &mut expressions,
        &mut constraints,
        &mut symbols,
        "test_air",
        0,
        0,
        1,
        &mut n_commitments,
        &mut c_exp_id,
        &[2],
        1,
        false,
        &boundaries,
    );
    let im_symbols: Vec<_> = symbols.iter().filter(|s| s.name.contains("ImPol")).collect();
    assert_eq!(im_symbols.len(), 1);
    assert_eq!(im_symbols[0].sym_type, SymType::Witness);
    let q_symbols: Vec<_> = symbols.iter().filter(|s| s.name.starts_with("Q")).collect();
    assert_eq!(q_symbols.len(), 1);
    assert_eq!(constraints.len(), 1);
    assert_eq!(constraints[0].boundary, BoundaryKind::EveryRow);
    assert!(expressions[2].im_pol);
    assert!(expressions[2].pol_id.is_some());
}

#[test]
fn add_im_pols_counts_commitments_and_names_quotients() {
    let mut expressions = vec![make_cm(0, 1), make_cm(1, 1), make_mul(0, 1, 2)];
    let mut constraints: Vec<ConstraintInfo> = Vec::new();
    let mut symbols: Vec<SymbolInfo> = Vec::new();
    let mut n_commitments: usize = 2;
    let mut c_exp_id: usize = 2;
    let boundaries = every_row();
    let _ = add_im_polynomials(
        &mut expressions,
        &mut constraints,
        &mut symbols,
        "air",
        0,
        0,
        1,
        &mut n_commitments,
        &mut c_exp_id,
        &[],
        2,
        false,
        &boundaries,
    );
    assert_eq!(n_commitments, 4);
    let names: Vec<&str> = symbols.iter().filter(|s| s.sym_type == SymType::Witness).map(|s| s.name.as_str()).collect();
    assert_eq!(names, vec!["Q0", "Q1"]);
    assert!(c_exp_id >= 3);
}

#[test]
fn memo_keeps_expressions_apart() {
    // exp(0) has degree 1 and exp(3) degree 2: under a budget of 2 the
    // second one must become an intermediate polynomial.
    let exprs = vec![
        make_cm(0, 1),
        make_cm(1, 1),
        make_cm(2, 1),
        make_mul(1, 2, 2),
        make_exp_ref(0),
        make_exp_ref(3),
        make_mul(4, 5, 3),
    ];
    let result = calculate_intermediate_polynomials(&exprs, 6, 2, 1);
    assert_eq!(result.im_exps, vec![3]);
    assert_eq!(result.q_deg, 1);
}

#[test]
fn add_im_pols_marks_each_chosen_expression() {
    let mut expressions = vec![make_cm(0, 1), make_cm(1, 1), make_mul(0, 1, 2), make_mul(0, 0, 2), make_mul(2, 3, 2)];
    let mut constraints: Vec<ConstraintInfo> = Vec::new();
    let mut symbols: Vec<SymbolInfo> = Vec::new();
    let mut n_commitments: usize = 3;
    let mut c_exp_id: usize = 4;
    let boundaries = every_row();
    let _ = add_im_polynomials(
        &mut expressions,
        &mut constraints,
        &mut symbols,
        "air",
        0,
        0,
        1,
        &mut n_commitments,
        &mut c_exp_id,
        &[2, 3],
        1,
        false,
        &boundaries,
    );
    assert!(expressions[2].im_pol && expressions[3].im_pol);
    assert_eq!(expressions[2].pol_id, Some(3));
    assert_eq!(expressions[3].pol_id, Some(4));
    assert!(!expressions[4].im_pol);
    assert_eq!(expressions[4].pol_id, None);
    assert_eq!(c_exp_id, expressions.len() - 1);
    assert_eq!(n_commitments, 6);
}
