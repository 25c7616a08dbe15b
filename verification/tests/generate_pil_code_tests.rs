use pil2_stark_setup::expression::{BoundaryKind, ExprChild, ExprOp, Expression};
use pil2_stark_setup::generate_pil_code::{
    add_hints_info, generate_constraints_debug_code, generate_expressions_code, process_hint_field_values,
    process_single_hint_field, CodeGenParams, HintFieldOp,
};
use pil2_stark_setup::pilout_info::{ConstraintInfo, HintFieldEntry, HintFieldValue, HintInfo, SymbolInfo};
use pil2_stark_setup::setup_cmd::{process_global_hint_values, process_global_hints, process_global_single_hint_field};

fn make_number(val: &str) -> Expression {
    let mut e = Expression::new(ExprOp::Number);
    e.value = Some(val.to_string());
    e.dim = 1;
    e
}

fn make_cm(id: usize, stage: usize) -> Expression {
    let mut e = Expression::new(ExprOp::Cm);
    e.id = Some(id);
    e.dim = 1;
    e.stage = stage;
    e.row_offset = Some(0);
    e
}

fn make_add(lhs: usize, rhs: usize) -> Expression {
    let mut e = Expression::new(ExprOp::Add);
    e.values = vec![ExprChild::Id(lhs), ExprChild::Id(rhs)];
    e.dim = 1;
    e
}

fn params(c_exp_id: usize, fri_exp_id: usize, cm_pols_map: Vec<SymbolInfo>) -> CodeGenParams {
    CodeGenParams {
        air_id: 0,
        airgroup_id: 0,
        n_stages: 1,
        c_exp_id,
        fri_exp_id,
        q_deg: 1,
        q_dim: 1,
        opening_points: vec![0],
        cm_pols_map,
        custom_commits_count: 0,
    }
}

fn make_params() -> CodeGenParams {
    params(2, 3, vec![SymbolInfo { stage: Some(2), stage_id: Some(0), ..Default::default() }])
}

#[test]
fn test_generate_expressions_code_basic() {
    let expressions = vec![make_number("1"), make_cm(0, 1), {
        let mut e = make_add(0, 1);
        e.keep = Some(true);
        e.stage = 1;
        e
    }];
    let symbols: Vec<SymbolInfo> = Vec::new();
    let p = params(999, 998, Vec::new());
    let code = generate_expressions_code(&p, &symbols, &expressions);
    assert_eq!(code.len(), 1);
    assert_eq!(code[0].exp_id, 2);
    assert!(!code[0].code.is_empty());
}

#[test]
fn test_add_hints_info_basic() {
    let mut expressions = vec![make_number("5"), make_cm(0, 1)];
    let p = make_params();
    let hints = vec![HintInfo {
        name: "test_hint".to_string(),
        fields: vec![HintFieldEntry {
            name: "field1".to_string(),
            values: vec![HintFieldValue::Single(make_number("42"))],
            lengths: None,
        }],
    }];
    let result = add_hints_info(&p, &mut expressions, &hints, false, None);
    assert_eq!(result.len(), 1);
    assert_eq!(result[0].name, "test_hint");
    assert_eq!(result[0].fields.len(), 1);
    assert_eq!(result[0].fields[0].name, "field1");
    assert!(result[0].fields[0].values[0].pos.is_empty());
}

#[test]
fn test_constraints_debug_code() {
    let expressions = vec![make_number("1"), make_cm(0, 1), make_add(0, 1)];
    let symbols: Vec<SymbolInfo> = Vec::new();
    let constraints = vec![ConstraintInfo {
        boundary: BoundaryKind::EveryRow,
        e: 2,
        line: Some("test".to_string()),
        offset_min: None,
        offset_max: None,
        stage: Some(1),
        im_pol: false,
    }];
    let p = params(2, 999, Vec::new());
    let result = generate_constraints_debug_code(&p, &symbols, &constraints, &expressions);
    assert_eq!(result.len(), 1);
    assert_eq!(result[0].boundary, BoundaryKind::EveryRow);
    assert_eq!(result[0].stage, 1);
    assert!(!result[0].code.is_empty());
}

#[test]
fn test_process_hint_field_nested() {
    let mut expressions = vec![make_number("1")];
    let p = make_params();
    let values = vec![HintFieldValue::Array(vec![
        HintFieldValue::Single(make_number("1")),
        HintFieldValue::Single(make_number("2")),
    ])];
    let result = process_hint_field_values(&values, &p, &mut expressions, &[], None);
    assert_eq!(result.len(), 2);
    assert_eq!(result[0].pos, vec![0, 0]);
    assert_eq!(result[1].pos, vec![0, 1]);
}

#[test]
fn hint_column_records_its_opening_index() {
    let mut expressions = vec![make_number("1")];
    let mut p = make_params();
    p.opening_points = vec![-1, 0, 1];
    let mut col = make_cm(4, 1);
    col.row_offset = Some(1);
    let r = process_single_hint_field(&col, &p, &mut expressions, &[3], None);
    assert_eq!(r.op, HintFieldOp::Cm);
    assert_eq!(r.id, Some(4));
    assert_eq!(r.row_offset, Some(1));
    assert_eq!(r.row_offset_index, Some(2));
    assert_eq!(r.pos, vec![3]);
}

#[test]
fn hint_number_keeps_its_value() {
    let mut expressions = vec![make_number("1")];
    let p = make_params();
    let r = process_single_hint_field(&make_number("7"), &p, &mut expressions, &[], None);
    assert_eq!(r.op, HintFieldOp::Number);
    assert_eq!(r.value.as_deref(), Some("7"));
}

#[test]
fn global_hint_column_is_copied() {
    let mut expressions = vec![make_number("1")];
    let p = make_params();
    let mut col = make_cm(4, 1);
    col.row_offset = Some(1);
    col.airgroup_id = Some(2);
    let r = process_global_single_hint_field(&col, &p, &mut expressions, &[0], None);
    assert_eq!(r.op, HintFieldOp::Cm);
    assert_eq!(r.id, Some(4));
    assert_eq!(r.row_offset, None);
    assert_eq!(r.row_offset_index, None);
    assert_eq!(r.airgroup_id, Some(2));
}

#[test]
fn global_hints_flatten_like_local_ones() {
    let mut expressions = vec![make_number("1")];
    let p = make_params();
    let hints = vec![HintInfo {
        name: "g".to_string(),
        fields: vec![HintFieldEntry {
            name: "f".to_string(),
            values: vec![HintFieldValue::Array(vec![
                HintFieldValue::Single(make_number("1")),
                HintFieldValue::Single(make_number("2")),
            ])],
            lengths: Some(vec![2]),
        }],
    }];
    let r = process_global_hints(&p, &mut expressions, &hints, None);
    assert_eq!(r.len(), 1);
    assert_eq!(r[0].fields[0].values.len(), 2);
    assert_eq!(r[0].fields[0].values[1].pos, vec![0, 1]);
    let flat = process_global_hint_values(&hints[0].fields[0].values, &p, &mut expressions, &[], None);
    assert_eq!(flat.len(), 2);
}
