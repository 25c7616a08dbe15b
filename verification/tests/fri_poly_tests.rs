use pil2_stark_setup::expression::{ExprChild, ExprOp, Expression};
use pil2_stark_setup::fri_poly::generate_fri_polynomial;
use pil2_stark_setup::helpers::EvMapItem;
use pil2_stark_setup::pilout_info::{SymType, SymbolInfo};

fn witness(name: &str, pol_id: usize, stage: usize) -> SymbolInfo {
    SymbolInfo {
        name: name.to_string(),
        sym_type: SymType::Witness,
        stage: Some(stage),
        dim: 1,
        pol_id: Some(pol_id),
        stage_id: Some(0),
        id: Some(pol_id),
        ..Default::default()
    }
}

fn fixed(name: &str, pol_id: usize) -> SymbolInfo {
    SymbolInfo {
        name: name.to_string(),
        sym_type: SymType::Fixed,
        stage: Some(0),
        dim: 1,
        pol_id: Some(pol_id),
        stage_id: Some(0),
        id: Some(pol_id),
        ..Default::default()
    }
}

fn ev(entry_type: ExprOp, id: usize, prime: i64) -> EvMapItem {
    EvMapItem { entry_type, id, prime, commit_id: None }
}

fn child(c: &ExprChild) -> &Expression {
    match c {
        ExprChild::Inline(e) => e,
        ExprChild::Id(_) => panic!("expected an inline child"),
    }
}

#[test]
fn fri_polynomial_adds_the_verifier_challenges() {
    let mut expressions: Vec<Expression> = Vec::new();
    let mut symbols = vec![witness("w0", 0, 1), fixed("f0", 0)];
    let ev_map = vec![ev(ExprOp::Cm, 0, 0), ev(ExprOp::Const, 0, 0)];
    let mut challenges_map = Vec::new();
    let result = generate_fri_polynomial(1, &mut expressions, &mut symbols, &ev_map, &[0], &mut challenges_map);

    // The two challenges, then the FRI polynomial, are appended to the arena.
    assert_eq!(expressions.len(), 3);
    assert_eq!(result.fri_exp_id, expressions.len() - 1);
    assert_eq!(expressions[0].op, ExprOp::Challenge);
    assert_eq!(expressions[0].value.as_deref(), Some("std_vf1"));
    assert_eq!(expressions[1].value.as_deref(), Some("std_vf2"));
    assert_eq!(expressions[1].dim, 3);
    let names: Vec<&str> =
        symbols.iter().filter(|s| s.sym_type == SymType::Challenge).map(|s| s.name.as_str()).collect();
    assert_eq!(names, vec!["std_vf1", "std_vf2"]);
    assert_eq!(challenges_map.len(), names.len());
    assert_eq!(challenges_map[0].name, "std_vf1");
    assert_eq!(challenges_map[1].name, "std_vf2");
    assert_eq!(challenges_map[1].stage_id, 1);
    assert_eq!(symbols[2].stage, Some(4));
    assert_eq!(symbols[3].id, Some(1));

    // mul(add(mul(sub(cm, eval0), vf2), sub(const, eval1)), xDivXSubXi)
    let fri = &expressions[2];
    assert_eq!(fri.op, ExprOp::Mul);
    assert_eq!(fri.dim, 3);
    assert_eq!(fri.stage, 3);
    let acc = child(&fri.values[0]);
    let xdiv = child(&fri.values[1]);
    assert_eq!(xdiv.op, ExprOp::XDivXSubXi);
    assert_eq!(xdiv.opening, Some(0));
    assert_eq!(acc.op, ExprOp::Add);
    let second = child(&acc.values[1]);
    assert_eq!(second.op, ExprOp::Sub);
    assert_eq!(child(&second.values[0]).op, ExprOp::Const);
    assert_eq!(child(&second.values[1]).id, Some(1));
}

#[test]
fn fri_polynomial_combines_openings_with_vf1() {
    let mut expressions = vec![Expression::new(ExprOp::Number)];
    expressions[0].value = Some("1".to_string());
    let mut symbols = vec![witness("w0", 0, 1), witness("w1", 1, 1)];
    let ev_map = vec![ev(ExprOp::Cm, 0, 0), ev(ExprOp::Cm, 1, 1)];
    let mut challenges_map = Vec::new();
    let result = generate_fri_polynomial(1, &mut expressions, &mut symbols, &ev_map, &[0, 1], &mut challenges_map);

    assert_eq!(result.fri_exp_id, 3);
    assert_eq!(expressions.len(), 4);
    let fri = &expressions[3];
    // add(mul(vf1, first), mul(second, xDivXSubXi))
    assert_eq!(fri.op, ExprOp::Add);
    let left = child(&fri.values[0]);
    assert_eq!(left.op, ExprOp::Mul);
    assert_eq!(child(&left.values[0]).op, ExprOp::Challenge);
    assert_eq!(child(&left.values[0]).value.as_deref(), Some("std_vf1"));
    let right = child(&fri.values[1]);
    assert_eq!(child(&right.values[1]).opening, Some(1));
    assert_eq!(child(&right.values[1]).id, Some(1));
}

#[test]
fn fri_polynomial_skips_openings_without_evaluations() {
    let mut expressions: Vec<Expression> = Vec::new();
    let mut symbols = vec![witness("w0", 0, 1)];
    let ev_map = vec![ev(ExprOp::Cm, 0, 1)];
    let mut challenges_map = Vec::new();
    let result = generate_fri_polynomial(2, &mut expressions, &mut symbols, &ev_map, &[0, 1], &mut challenges_map);
    assert_eq!(result.fri_exp_id, expressions.len() - 1);
    let fri = &expressions[2];
    assert_eq!(fri.op, ExprOp::Mul);
    assert_eq!(fri.stage, 4);
    let xdiv = child(&fri.values[1]);
    assert_eq!(xdiv.opening, Some(1));
    assert_eq!(xdiv.id, Some(1));
}

#[test]
fn test_generate_fri_polynomial_basic() {
    let mut expressions: Vec<Expression> = Vec::new();
    let mut symbols = vec![witness("w0", 0, 1), fixed("f0", 0)];
    let ev_map = vec![ev(ExprOp::Cm, 0, 0), ev(ExprOp::Const, 0, 0)];
    let opening_points = vec![0];
    let mut challenges_map = Vec::new();
    let result = generate_fri_polynomial(1, &mut expressions, &mut symbols, &ev_map, &opening_points, &mut challenges_map);

    assert!(result.fri_exp_id > 0);
    let challenge_names: Vec<&str> =
        symbols.iter().filter(|s| s.sym_type == SymType::Challenge).map(|s| s.name.as_str()).collect();
    assert!(challenge_names.contains(&"std_vf1"));
    assert!(challenge_names.contains(&"std_vf2"));
    assert_eq!(challenges_map.len(), challenge_names.len());
}

#[test]
fn test_generate_fri_polynomial_multiple_openings() {
    let mut expressions: Vec<Expression> = Vec::new();
    let mut symbols = vec![witness("w0", 0, 1), witness("w1", 1, 1)];
    let ev_map = vec![ev(ExprOp::Cm, 0, 0), ev(ExprOp::Cm, 1, 1)];
    let opening_points = vec![0, 1];
    let mut challenges_map = Vec::new();
    let result = generate_fri_polynomial(1, &mut expressions, &mut symbols, &ev_map, &opening_points, &mut challenges_map);

    assert!(result.fri_exp_id > 0);
    // The final expression should exist
    assert!(result.fri_exp_id < expressions.len());
}
