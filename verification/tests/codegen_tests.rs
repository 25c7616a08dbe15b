use pil2_stark_setup::codegen::{build_code, pil_code_gen, CodeGenCtx};
use pil2_stark_setup::expression::{ExprChild, ExprOp, Expression};
use pil2_stark_setup::pilout_info::SymbolInfo;
use pil2_stark_setup::stark_info::CodeOp;
use pil2_stark_setup::types::RefType;

fn make_number(val: &str) -> Expression {
    let mut e = Expression::new(ExprOp::Number);
    e.value = Some(val.to_string());
    e.dim = 1;
    e
}

fn make_cm(id: usize) -> Expression {
    let mut e = Expression::new(ExprOp::Cm);
    e.id = Some(id);
    e.dim = 1;
    e.stage = 1;
    e.row_offset = Some(0);
    e
}

fn make_bin(op: ExprOp, lhs: usize, rhs: usize) -> Expression {
    let mut e = Expression::new(op);
    e.values = vec![ExprChild::Id(lhs), ExprChild::Id(rhs)];
    e.dim = 1;
    e
}

fn make_exp_ref(ref_id: usize, dim: usize) -> Expression {
    let mut e = Expression::new(ExprOp::Exp);
    e.id = Some(ref_id);
    e.dim = dim;
    e
}

fn new_ctx() -> CodeGenCtx {
    CodeGenCtx::new(0, 0, 1, "n", false, vec![0], Vec::new())
}

#[test]
fn test_simple_add() {
    let expressions = vec![make_number("5"), make_cm(0), make_bin(ExprOp::Add, 0, 1)];
    let symbols: Vec<SymbolInfo> = Vec::new();
    let mut ctx = new_ctx();
    pil_code_gen(&mut ctx, &symbols, &expressions, 2, 0);
    let block = build_code(&mut ctx);
    assert!(!block.code.is_empty());
    assert_eq!(block.code[0].op, CodeOp::Add);
}

#[test]
fn test_mul_expression() {
    let expressions = vec![make_number("3"), make_cm(0), make_bin(ExprOp::Mul, 0, 1)];
    let symbols: Vec<SymbolInfo> = Vec::new();
    let mut ctx = new_ctx();
    pil_code_gen(&mut ctx, &symbols, &expressions, 2, 0);
    let block = build_code(&mut ctx);
    assert!(!block.code.is_empty());
    assert_eq!(block.code[0].op, CodeOp::Mul);
}

#[test]
fn test_nested_expression_with_dep() {
    let expressions = vec![
        make_number("1"),
        make_cm(0),
        make_bin(ExprOp::Add, 0, 1),
        make_exp_ref(2, 1),
        make_number("2"),
        make_bin(ExprOp::Mul, 3, 4),
    ];
    let symbols: Vec<SymbolInfo> = Vec::new();
    let mut ctx = new_ctx();
    pil_code_gen(&mut ctx, &symbols, &expressions, 5, 0);
    let block = build_code(&mut ctx);
    assert!(block.code.len() >= 2);
}

#[test]
fn test_build_code_resets_ctx() {
    let expressions = vec![make_number("1"), make_cm(0), make_bin(ExprOp::Add, 0, 1)];
    let symbols: Vec<SymbolInfo> = Vec::new();
    let mut ctx = new_ctx();
    pil_code_gen(&mut ctx, &symbols, &expressions, 2, 0);
    let _ = build_code(&mut ctx);
    assert!(ctx.code.is_empty());
    assert_eq!(ctx.tmp_used, 0);
    assert!(ctx.calculated.is_empty());
}

#[test]
fn test_number_ref() {
    let expressions = vec![make_number("42")];
    let symbols: Vec<SymbolInfo> = Vec::new();
    let mut ctx = new_ctx();
    pil_code_gen(&mut ctx, &symbols, &expressions, 0, 0);
    let block = build_code(&mut ctx);
    assert!(!block.code.is_empty());
    let last = block.code.last().unwrap();
    assert_eq!(last.op, CodeOp::Copy);
    assert_eq!(last.src[0].ref_type, RefType::Number);
    assert_eq!(last.src[0].value.as_deref(), Some("42"));
}

#[test]
fn codegen_memoizes_generated_expression() {
    let expressions = vec![make_number("1"), make_cm(0), make_bin(ExprOp::Add, 0, 1)];
    let symbols: Vec<SymbolInfo> = Vec::new();
    let mut ctx = new_ctx();
    pil_code_gen(&mut ctx, &symbols, &expressions, 2, 0);
    let n = ctx.code.len();
    let t = ctx.tmp_used;
    pil_code_gen(&mut ctx, &symbols, &expressions, 2, 0);
    assert_eq!(ctx.code.len(), n);
    assert_eq!(ctx.tmp_used, t);
}

#[test]
fn codegen_nested_reference_becomes_temporary() {
    let expressions = vec![
        make_number("1"),
        make_cm(0),
        make_bin(ExprOp::Add, 0, 1),
        make_exp_ref(2, 1),
        make_number("2"),
        make_bin(ExprOp::Mul, 3, 4),
    ];
    let symbols: Vec<SymbolInfo> = Vec::new();
    let mut ctx = new_ctx();
    pil_code_gen(&mut ctx, &symbols, &expressions, 5, 0);
    let block = build_code(&mut ctx);
    for entry in &block.code {
        for s in &entry.src {
            assert_ne!(s.ref_type, RefType::Exp);
        }
    }
    assert_eq!(block.code[0].op, CodeOp::Add);
    assert_eq!(block.code[block.code.len() - 1].op, CodeOp::Mul);
}
