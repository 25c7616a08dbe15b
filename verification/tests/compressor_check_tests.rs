use pil2_stark_setup::compressor_check::{compressor_decision, log2_usize, CompressorCheckResult};
use pil2_stark_setup::pil_info::{compute_num_nodes, get_num_nodes_mt};
use pil2_stark_setup::pil_info::prover_memory_words;
use pil2_stark_setup::pilout_info::CustomCommitInfo;
use pil2_stark_setup::stark_info::{StarkStruct, StepStruct};

#[test]
fn test_log2_usize() {
    assert_eq!(log2_usize(1), 0);
    assert_eq!(log2_usize(2), 1);
    assert_eq!(log2_usize(3), 1);
    assert_eq!(log2_usize(4), 2);
    assert_eq!(log2_usize(128), 7);
    assert_eq!(log2_usize(131071), 16);
    assert_eq!(log2_usize(131072), 17);
}

#[test]
fn log2_of_zero_is_zero() {
    assert_eq!(log2_usize(0), 0);
    assert_eq!(log2_usize(usize::MAX), (usize::BITS - 1) as usize);
}

#[test]
fn compressor_needed_above_recursive_bits() {
    let (r, q) = compressor_decision(131073, 100);
    assert_eq!(r, CompressorCheckResult { needed: true, starkinfo_updated: false });
    assert_eq!(q, None);
}

#[test]
fn compressor_not_needed_at_recursive_bits() {
    let (r, q) = compressor_decision(131072, 100);
    assert_eq!(r, CompressorCheckResult { needed: false, starkinfo_updated: false });
    assert_eq!(q, None);
}

#[test]
fn small_circuit_adjusts_queries() {
    let (r, q) = compressor_decision(50000, 100);
    assert_eq!(r, CompressorCheckResult { needed: false, starkinfo_updated: true });
    assert_eq!(q, Some(140));
}

#[test]
fn small_circuit_keeps_matching_queries() {
    let (r, q) = compressor_decision(50000, 140);
    assert_eq!(q, Some(196));
    assert!(r.starkinfo_updated);
    let (r2, q2) = compressor_decision(10, 20);
    assert_eq!(r2, CompressorCheckResult { needed: false, starkinfo_updated: false });
    assert_eq!(q2, None);
}

#[test]
fn merkle_tree_sizes() {
    assert_eq!(get_num_nodes_mt(8, 2), 60);
    assert_eq!(get_num_nodes_mt(4, 4), 20);
    assert_eq!(get_num_nodes_mt(5, 2), 52);
    assert_eq!(get_num_nodes_mt(1, 2), 4);
    assert_eq!(get_num_nodes_mt(1024, 16), 4420);
}

fn stark_struct(n_bits: u64, n_bits_ext: u64, steps: &[u64]) -> StarkStruct {
    StarkStruct {
        n_bits,
        n_bits_ext,
        n_queries: 8,
        hash_commits: true,
        last_level_verification: 0,
        merkle_tree_arity: 2,
        steps: steps.iter().map(|b| StepStruct { n_bits: *b }).collect(),
        pow_bits: 0,
    }
}

#[test]
fn prover_memory_adds_every_buffer() {
    let cc = vec![CustomCommitInfo { name: "rom".to_string(), stage_widths: vec![2] }];
    let sections = vec![("cm1".to_string(), 10), ("cm2".to_string(), 20), ("cm3".to_string(), 5)];
    let words = prover_memory_words(&cc, 3, 2, &sections, &stark_struct(4, 5, &[5, 3, 1]), 1);
    assert_eq!(words, Some(3038));
}

#[test]
fn prover_memory_needs_small_domains() {
    let sections: Vec<(String, u64)> = Vec::new();
    assert_eq!(prover_memory_words(&Vec::new(), 0, 1, &sections, &stark_struct(64, 65, &[]), 0), None);
}

#[test]
fn test_compute_num_nodes() {
    assert_eq!(compute_num_nodes(8, 4), 13);
    assert_eq!(compute_num_nodes(1, 4), 1);
    assert_eq!(compute_num_nodes(4, 2), 7);
}
