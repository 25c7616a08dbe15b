use pil2_stark_setup::expression::{ExprChild, ExprOp, Expression};
use pil2_stark_setup::helpers::{add_info_expressions, add_info_expressions_symbols, get_exp_dim, EvMapItem};
use pil2_stark_setup::pilout_info::FIELD_EXTENSION;

fn make_number(val: &str) -> Expression {
    let mut e = Expression::new(ExprOp::Number);
    e.value = Some(val.to_string());
    e
}

fn make_cm(id: usize, stage: usize) -> Expression {
    let mut e = Expression::new(ExprOp::Cm);
    e.id = Some(id);
    e.stage = stage;
    e.dim = 1;
    e.row_offset = Some(0);
    e
}

#[test]
fn test_add_info_number() {
    let mut exprs = vec![make_number("42")];
    add_info_expressions(&mut exprs, 0);
    assert_eq!(exprs[0].exp_deg, 0);
    assert_eq!(exprs[0].dim, 1);
    assert_eq!(exprs[0].stage, 0);
}

#[test]
fn test_add_info_cm() {
    let mut exprs = vec![make_cm(0, 1)];
    add_info_expressions(&mut exprs, 0);
    assert_eq!(exprs[0].exp_deg, 1);
    assert_eq!(exprs[0].dim, 1);
    assert_eq!(exprs[0].stage, 1);
}

#[test]
fn test_add_info_mul() {
    let mut mul_expr = Expression::new(ExprOp::Mul);
    mul_expr.values = vec![ExprChild::Id(0), ExprChild::Id(1)];
    let mut exprs = vec![make_cm(0, 1), make_cm(1, 1), mul_expr];
    add_info_expressions(&mut exprs, 2);
    assert_eq!(exprs[2].exp_deg, 2);
    assert_eq!(exprs[2].dim, 1);
    assert_eq!(exprs[2].stage, 1);
}

#[test]
fn test_get_exp_dim_number() {
    let mut e = Expression::new(ExprOp::Number);
    e.value = Some("1".to_string());
    e.dim = 1;
    let exprs = vec![e];
    assert_eq!(get_exp_dim(&exprs, 0), 1);
}

#[test]
fn test_get_exp_dim_challenge() {
    let mut e = Expression::new(ExprOp::Challenge);
    e.dim = FIELD_EXTENSION;
    let exprs = vec![e];
    assert_eq!(get_exp_dim(&exprs, 0), FIELD_EXTENSION);
}

#[test]
fn test_ev_map_dedup() {
    let mut add = Expression::new(ExprOp::Add);
    add.values = vec![ExprChild::Id(0), ExprChild::Id(1)];
    let exprs = vec![make_cm(0, 1), make_cm(0, 1), add];
    let mut ev_map: Vec<EvMapItem> = Vec::new();
    let mut explored = vec![false; exprs.len()];
    add_info_expressions_symbols(&mut ev_map, &exprs, 2, &mut explored);
    assert_eq!(ev_map.len(), 1);
}

#[test]
fn add_info_is_idempotent() {
    let mut mul_expr = Expression::new(ExprOp::Mul);
    mul_expr.values = vec![ExprChild::Id(0), ExprChild::Id(1)];
    let mut exprs = vec![make_cm(0, 1), make_cm(1, 2), mul_expr];
    add_info_expressions(&mut exprs, 2);
    let deg = exprs[2].exp_deg;
    let stage = exprs[2].stage;
    let n = exprs.len();
    add_info_expressions(&mut exprs, 2);
    assert_eq!(exprs.len(), n);
    assert_eq!(exprs[2].exp_deg, deg);
    assert_eq!(exprs[2].stage, stage);
    assert_eq!(stage, 2);
}

#[test]
fn add_info_negation_becomes_multiplication() {
    let mut neg = Expression::new(ExprOp::Neg);
    neg.values = vec![ExprChild::Id(0)];
    let mut exprs = vec![make_cm(0, 1), neg];
    add_info_expressions(&mut exprs, 1);
    assert_eq!(exprs[1].op, ExprOp::Mul);
    assert_eq!(exprs[1].exp_deg, 1);
}

#[test]
fn ev_map_records_distinct_offsets() {
    let mut shifted = make_cm(0, 1);
    shifted.row_offset = Some(1);
    let mut add = Expression::new(ExprOp::Add);
    add.values = vec![ExprChild::Id(0), ExprChild::Id(1)];
    let exprs = vec![make_cm(0, 1), shifted, add];
    let mut ev_map: Vec<EvMapItem> = Vec::new();
    let mut explored = vec![false; exprs.len()];
    add_info_expressions_symbols(&mut ev_map, &exprs, 2, &mut explored);
    assert_eq!(ev_map.len(), 2);
    assert_eq!(ev_map[0].prime, 0);
    assert_eq!(ev_map[1].prime, 1);
}
