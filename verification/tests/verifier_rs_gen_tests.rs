use pil2_stark_setup::stark_info::{
    Boundary, CodeOp, CodeOperation, CodeType, ExpCode, OpType, StarkInfo, StarkStruct, StepStruct, VerifierInfo,
};
use pil2_stark_setup::verifier_rs_gen::prepare_verifier_rust;

fn stark_info() -> StarkInfo {
    StarkInfo {
        stark_struct: StarkStruct {
            n_bits: 10,
            n_bits_ext: 12,
            n_queries: 8,
            hash_commits: true,
            last_level_verification: 0,
            merkle_tree_arity: 2,
            steps: vec![StepStruct { n_bits: 10 }, StepStruct { n_bits: 5 }],
            pow_bits: 0,
        },
        n_stages: 2,
        n_constants: 5,
        n_publics: 0,
        custom_commits: Vec::new(),
        cm_pols_map: Vec::new(),
        const_pols_map: Vec::new(),
        challenges_map: Vec::new(),
        airgroup_values_map: Vec::new(),
        air_values_map: Vec::new(),
        proof_values_map: Vec::new(),
        ev_map: Vec::new(),
        opening_points: vec![-1, 0],
        boundaries: vec![Boundary { name: "everyRow".to_string(), offset_min: None, offset_max: None }],
        q_deg: 0,
        q_dim: 0,
        fri_exp_id: 0,
        c_exp_id: 0,
        map_sections_n: vec![("cm1".to_string(), 10), ("cm2".to_string(), 20), ("cm3".to_string(), 30)],
    }
}

fn operand(op_type: OpType, id: u64, dim: u64) -> CodeType {
    CodeType { op_type, id, prime: 0, dim, value: 0, commit_id: 0, boundary_id: 0, airgroup_id: 0 }
}

fn block(code: Vec<CodeOperation>) -> ExpCode {
    ExpCode {
        exp_id: 0,
        stage: 0,
        tmp_used: 1,
        code,
        line: String::new(),
        boundary: String::new(),
        offset_min: 0,
        offset_max: 0,
        im_pol: 0,
    }
}

fn mul_block() -> ExpCode {
    block(vec![CodeOperation {
        op: CodeOp::Mul,
        dest: operand(OpType::Tmp, 0, 3),
        src: vec![operand(OpType::Challenge, 0, 3), operand(OpType::Eval, 1, 3)],
    }])
}

#[test]
fn test_prepare_verifier_rust_basic_structure() {
    let si = stark_info();
    assert_eq!(si.n_stages, 2);
    assert_eq!(si.stark_struct.merkle_tree_arity, 2);
}

#[test]
fn verifier_source_lists_parameters() {
    let si = stark_info();
    let vi = VerifierInfo { q_verifier: mul_block(), query_verifier: mul_block() };
    let src = prepare_verifier_rust(&si, &vi).unwrap();
    let lines: Vec<&str> = src.split('\n').collect();
    assert_eq!(lines[0], "use fields::{Goldilocks, CubicExtensionField, Field, Poseidon8};");
    assert_eq!(lines[1], "use crate::{Boundary, VerifierInfo, stark_verify};");
    assert!(lines.contains(&"        n_stages: 2,"));
    assert!(lines.contains(&"        n_constants: 5,"));
    assert!(lines.contains(&"        fri_steps: vec![10, 5],"));
    assert!(lines.contains(&"        n_challenges_total: 3,"));
    assert!(lines.contains(&"        hash_commits: true,"));
    assert!(lines.contains(&"        num_vals: vec![10, 20, 30],"));
    assert!(lines.contains(&"        opening_points: vec![-1, 0],"));
    assert!(lines
        .contains(&"        boundaries: vec![Boundary { name: \"everyRow\".to_string(), offset_min: None, offset_max: None }],"));
    assert!(lines.contains(&"        q_index: 0,"));
    assert!(lines.contains(&"    tmp_3[0] = challenges[0] * evals[1];"));
    assert!(lines.contains(&"    stark_verify::<Poseidon8, 8>(proof, vk, &verifier_info(), q_verify, query_verify)"));
    assert!(src.ends_with("}\n"));
}

#[test]
fn verifier_source_rejects_bad_destination() {
    let si = stark_info();
    let bad = block(vec![CodeOperation {
        op: CodeOp::Mul,
        dest: operand(OpType::Tmp, 0, 2),
        src: vec![operand(OpType::Challenge, 0, 3), operand(OpType::Eval, 1, 3)],
    }]);
    let vi = VerifierInfo { q_verifier: bad, query_verifier: mul_block() };
    assert!(prepare_verifier_rust(&si, &vi).is_err());
}
