//! Verified core of a STARK proving-key setup: expression arenas, degree
//! analysis, constraint/FRI polynomial construction, code generation and the
//! binary argument encoding used by the prover.
#![allow(unused_imports)]

pub mod expression;
pub mod constraint_poly;
pub mod text;
pub mod error;
pub mod stark_info;
pub mod parser_args;
pub mod pilout_info;
pub mod helpers;
pub mod im_polynomials;
pub mod types;
pub mod codegen;
pub mod fri_poly;
pub mod print_expression;
pub mod generate_pil_code;
pub mod recursive_setup;
pub mod compressor_check;
pub mod fixed_cols;
pub mod prepare_pil;
pub mod setup_cmd;
pub mod verifier_rs_gen;
pub mod bin_file;
pub mod pil_info;
pub mod bin_file_writer;
pub mod map;
pub mod symbols;
