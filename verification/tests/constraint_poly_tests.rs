use pil2_stark_setup::constraint_poly::{calculate_exp_deg, generate_constraint_polynomial, Boundary};
use pil2_stark_setup::expression::{BoundaryKind, ExprChild, ExprOp, Expression};
use pil2_stark_setup::pilout_info::{ConstraintInfo, SymType, SymbolInfo};

fn make_cm(id: usize, stage: usize) -> Expression {
    let mut e = Expression::new(ExprOp::Cm);
    e.id = Some(id);
    e.stage = stage;
    e.dim = 1;
    e.row_offset = Some(0);
    e
}

fn make_mul(lhs: usize, rhs: usize) -> Expression {
    let mut e = Expression::new(ExprOp::Mul);
    e.values = vec![ExprChild::Id(lhs), ExprChild::Id(rhs)];
    e
}

fn constraint(boundary: BoundaryKind, e: usize) -> ConstraintInfo {
    ConstraintInfo { boundary, e, line: None, offset_min: None, offset_max: None, stage: None, im_pol: false }
}

fn every_row() -> Boundary {
    Boundary { name: BoundaryKind::EveryRow, offset_min: None, offset_max: None }
}

#[test]
fn test_calculate_exp_deg_leaf() {
    let mut e = Expression::new(ExprOp::Number);
    e.value = Some("42".to_string());
    let exprs = vec![e];
    assert_eq!(calculate_exp_deg(&exprs, 0, &[], false), 0);
}

#[test]
fn test_calculate_exp_deg_cm() {
    let exprs = vec![make_cm(0, 1)];
    assert_eq!(calculate_exp_deg(&exprs, 0, &[], false), 1);
}

#[test]
fn test_calculate_exp_deg_mul() {
    let exprs = vec![make_cm(0, 1), make_cm(1, 1), make_mul(0, 1)];
    assert_eq!(calculate_exp_deg(&exprs, 2, &[], false), 2);
}

#[test]
fn test_generate_constraint_polynomial_single() {
    let mut expressions = vec![make_cm(0, 1)];
    let mut symbols: Vec<SymbolInfo> = Vec::new();
    let constraints = vec![constraint(BoundaryKind::EveryRow, 0)];
    let mut boundaries = vec![every_row()];
    let result = generate_constraint_polynomial(1, &mut expressions, &mut symbols, &constraints, &mut boundaries);
    assert_eq!(result.c_exp_id, 0);
    assert_eq!(result.q_dim, 1);
    assert_eq!(result.initial_q_degree, 1);
    let names: Vec<&str> =
        symbols.iter().filter(|s| s.sym_type == SymType::Challenge).map(|s| s.name.as_str()).collect();
    assert!(names.contains(&"std_vc"));
    assert!(names.contains(&"std_xi"));
}

#[test]
fn test_generate_constraint_polynomial_two() {
    let mut expressions = vec![make_cm(0, 1), make_cm(1, 1)];
    let mut symbols: Vec<SymbolInfo> = Vec::new();
    let constraints = vec![constraint(BoundaryKind::EveryRow, 0), constraint(BoundaryKind::EveryRow, 1)];
    let mut boundaries = vec![every_row()];
    let result = generate_constraint_polynomial(1, &mut expressions, &mut symbols, &constraints, &mut boundaries);
    assert_eq!(result.c_exp_id, 3);
    assert!(result.q_dim >= 1);
}

#[test]
fn test_boundary_firstrow() {
    let mut expressions = vec![make_cm(0, 1)];
    let mut symbols: Vec<SymbolInfo> = Vec::new();
    let constraints = vec![constraint(BoundaryKind::FirstRow, 0)];
    let mut boundaries = vec![every_row()];
    let result = generate_constraint_polynomial(1, &mut expressions, &mut symbols, &constraints, &mut boundaries);
    assert!(boundaries.iter().any(|b| b.name == BoundaryKind::FirstRow));
    assert_eq!(result.initial_q_degree, 2);
}

#[test]
fn constraint_polynomial_without_constraints_is_zero() {
    let mut expressions = vec![make_cm(0, 1)];
    let mut symbols: Vec<SymbolInfo> = Vec::new();
    let constraints: Vec<ConstraintInfo> = Vec::new();
    let mut boundaries = vec![every_row()];
    let result = generate_constraint_polynomial(2, &mut expressions, &mut symbols, &constraints, &mut boundaries);
    assert_eq!(result.c_exp_id, 1);
    assert_eq!(result.q_dim, 1);
    assert_eq!(result.initial_q_degree, 0);
    assert_eq!(expressions[1].op, ExprOp::Number);
    assert_eq!(expressions[1].value.as_deref(), Some("0"));
    assert_eq!(symbols.len(), 1);
    assert_eq!(symbols[0].name, "std_vc");
    assert_eq!(symbols[0].stage, Some(3));
}

#[test]
fn constraint_polynomial_reuses_known_boundary() {
    let mut expressions = vec![make_cm(0, 1), make_cm(1, 1)];
    let mut symbols: Vec<SymbolInfo> = Vec::new();
    let constraints = vec![constraint(BoundaryKind::LastRow, 0), constraint(BoundaryKind::LastRow, 1)];
    let mut boundaries = vec![every_row()];
    let _ = generate_constraint_polynomial(1, &mut expressions, &mut symbols, &constraints, &mut boundaries);
    assert_eq!(boundaries.len(), 2);
    assert_eq!(boundaries[1].name, BoundaryKind::LastRow);
}
