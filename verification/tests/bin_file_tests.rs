use pil2_stark_setup::bin_file::{prepare_expressions_bin, prepare_verifier_expressions_bin};
use pil2_stark_setup::error::SetupError;
use pil2_stark_setup::stark_info::{
    CodeOp, CodeOperation, CodeType, ExpCode, ExpressionsInfo, OpType, StarkInfo, StarkStruct, VerifierInfo,
};

fn stark_info() -> StarkInfo {
    StarkInfo {
        stark_struct: StarkStruct {
            n_bits: 3,
            n_bits_ext: 4,
            n_queries: 8,
            hash_commits: true,
            last_level_verification: 0,
            merkle_tree_arity: 2,
            steps: Vec::new(),
            pow_bits: 0,
        },
        n_stages: 1,
        n_constants: 0,
        n_publics: 0,
        custom_commits: Vec::new(),
        cm_pols_map: Vec::new(),
        const_pols_map: Vec::new(),
        challenges_map: Vec::new(),
        airgroup_values_map: Vec::new(),
        air_values_map: Vec::new(),
        proof_values_map: Vec::new(),
        ev_map: Vec::new(),
        opening_points: vec![0],
        boundaries: Vec::new(),
        q_deg: 1,
        q_dim: 1,
        fri_exp_id: 8,
        c_exp_id: 7,
        map_sections_n: Vec::new(),
    }
}

fn operand(op_type: OpType, id: u64, value: u64) -> CodeType {
    CodeType { op_type, id, prime: 0, dim: 1, value, commit_id: 0, boundary_id: 0, airgroup_id: 0 }
}

fn mul_numbers(dest: OpType, a: u64, b: u64) -> Vec<CodeOperation> {
    vec![CodeOperation {
        op: CodeOp::Mul,
        dest: operand(dest, 0, 0),
        src: vec![operand(OpType::Number, 0, a), operand(OpType::Number, 0, b)],
    }]
}

fn block(exp_id: u64, boundary: &str, offset_min: u64, offset_max: u64, code: Vec<CodeOperation>) -> ExpCode {
    ExpCode {
        exp_id,
        stage: 1,
        tmp_used: 0,
        code,
        line: format!("line{}", exp_id),
        boundary: boundary.to_string(),
        offset_min,
        offset_max,
        im_pol: 0,
    }
}

#[test]
fn constraint_rows_follow_boundaries() {
    let info = ExpressionsInfo {
        expressions_code: Vec::new(),
        constraints: vec![
            block(0, "everyRow", 0, 0, mul_numbers(OpType::Tmp, 3, 5)),
            block(0, "firstRow", 0, 0, mul_numbers(OpType::Tmp, 5, 7)),
            block(0, "lastRow", 0, 0, mul_numbers(OpType::Tmp, 3, 3)),
            block(0, "everyFrame", 1, 2, mul_numbers(OpType::Tmp, 3, 3)),
        ],
        hints_info: Vec::new(),
    };
    let b = prepare_expressions_bin(&stark_info(), info).unwrap();
    let rows: Vec<(u64, u64)> = b.constraints_info.iter().map(|c| (c.first_row, c.last_row)).collect();
    assert_eq!(rows, vec![(0, 8), (0, 1), (7, 8), (1, 6)]);
    assert_eq!(b.numbers_constraints, vec!["3".to_string(), "5".to_string(), "7".to_string()]);
    assert_eq!(b.constraints_info[0].ops, vec![0]);
    assert_eq!(b.constraints_info[0].args, vec![2, 0, 8, 0, 0, 8, 1, 0]);
    assert_eq!(b.constraints_info[1].args, vec![2, 0, 8, 1, 0, 8, 2, 0]);
    assert_eq!(b.constraints_info[0].line, "line0");
    assert_eq!(b.max_tmp1, 1);
    assert_eq!(b.max_tmp3, 0);
    assert_eq!(b.max_args, 8);
    assert_eq!(b.max_ops, 1);
}

#[test]
fn unknown_boundary_is_rejected() {
    let info = ExpressionsInfo {
        expressions_code: Vec::new(),
        constraints: vec![block(0, "someRow", 0, 0, mul_numbers(OpType::Tmp, 3, 5))],
        hints_info: Vec::new(),
    };
    assert_eq!(prepare_expressions_bin(&stark_info(), info).err(), Some(SetupError::InvalidBoundary));
}

#[test]
fn special_expression_writes_a_temporary() {
    let info = ExpressionsInfo {
        expressions_code: vec![block(7, "", 0, 0, mul_numbers(OpType::Cm, 2, 4))],
        constraints: Vec::new(),
        hints_info: Vec::new(),
    };
    let b = prepare_expressions_bin(&stark_info(), info).unwrap();
    assert_eq!(b.exps_info.len(), 1);
    assert_eq!(b.exps_info[0].exp_id, 7);
    assert_eq!(b.exps_info[0].dest_dim, 1);
    assert_eq!(b.exps_info[0].dest_id, 0);
    assert_eq!(b.numbers_exps, vec!["2".to_string(), "4".to_string()]);
}

#[test]
fn plain_expression_keeps_its_destination() {
    let info = ExpressionsInfo {
        expressions_code: vec![block(3, "", 0, 0, mul_numbers(OpType::Cm, 2, 4))],
        constraints: Vec::new(),
        hints_info: Vec::new(),
    };
    assert_eq!(prepare_expressions_bin(&stark_info(), info).err(), Some(SetupError::InvalidDestType));
}

#[test]
fn verifier_blocks_share_numbers() {
    let vi = VerifierInfo {
        q_verifier: block(0, "", 0, 0, mul_numbers(OpType::Tmp, 3, 5)),
        query_verifier: block(0, "", 0, 0, mul_numbers(OpType::Tmp, 5, 9)),
    };
    let b = prepare_verifier_expressions_bin(&stark_info(), &vi).unwrap();
    assert_eq!(b.q_code.exp_id, 7);
    assert_eq!(b.query_code.exp_id, 8);
    assert_eq!(b.numbers_exps, vec!["3".to_string(), "5".to_string(), "9".to_string()]);
    assert_eq!(b.query_code.args, vec![2, 0, 8, 1, 0, 8, 2, 0]);
    assert_eq!(b.max_args, 8);
}
