use pil2_stark_setup::parser_args::{is_intersecting, operation_type_code, temporals_subsets};
use pil2_stark_setup::stark_info::{CodeOp, OpType};

#[test]
fn test_temporals_subsets_empty() {
    let mut segments: Vec<[i64; 3]> = Vec::new();
    let result = temporals_subsets(&mut segments);
    assert!(result.is_empty());
}

#[test]
fn test_temporals_subsets_non_overlapping() {
    let mut segments = vec![[0, 2, 0], [3, 5, 1], [6, 8, 2]];
    let result = temporals_subsets(&mut segments);
    assert_eq!(result.len(), 1);
    assert_eq!(result[0].len(), 3);
}

#[test]
fn test_temporals_subsets_overlapping() {
    let mut segments = vec![[0, 3, 0], [1, 4, 1], [5, 7, 2]];
    let result = temporals_subsets(&mut segments);
    assert_eq!(result.len(), 2);
}

#[test]
fn temporals_subsets_sorts_by_end_and_places_closest() {
    let mut segments = vec![[5, 7, 2], [0, 3, 0], [1, 4, 1]];
    let result = temporals_subsets(&mut segments);
    assert_eq!(segments, vec![[0, 3, 0], [1, 4, 1], [5, 7, 2]]);
    assert_eq!(result, vec![vec![[0, 3, 0]], vec![[1, 4, 1], [5, 7, 2]]]);
}

#[test]
fn test_is_intersecting() {
    assert!(is_intersecting(&[0, 3, 0], &[1, 4, 1]));
    assert!(!is_intersecting(&[0, 2, 0], &[2, 4, 1]));
    assert!(!is_intersecting(&[0, 2, 0], &[3, 5, 1]));
}

#[test]
fn test_operation_type_code() {
    assert_eq!(operation_type_code(CodeOp::Add), 0);
    assert_eq!(operation_type_code(CodeOp::Sub), 1);
    assert_eq!(operation_type_code(CodeOp::Mul), 2);
    assert_eq!(operation_type_code(CodeOp::SubSwap), 3);
    assert_eq!(operation_type_code(CodeOp::Copy), 0);
}

#[test]
fn op_type_name_round_trips() {
    for t in [OpType::Const, OpType::Cm, OpType::Tmp, OpType::Public, OpType::Challenge, OpType::XDivXSubXi] {
        assert_eq!(OpType::parse(t.to_str()), Ok(t));
    }
    assert!(OpType::parse("bogus").is_err());
}

#[test]
fn temporals_subsets_never_share_overlapping_segments() {
    let mut segments = vec![[0, 4, 0], [1, 2, 1], [2, 6, 2], [3, 5, 3], [5, 9, 4], [6, 7, 5], [4, 8, 6]];
    let original = segments.clone();
    let result = temporals_subsets(&mut segments);
    let mut placed = 0;
    for sub in &result {
        assert!(!sub.is_empty());
        for a in 0..sub.len() {
            for b in (a + 1)..sub.len() {
                assert!(sub[a][1] <= sub[b][0]);
                assert!(!is_intersecting(&sub[a], &sub[b]));
            }
        }
        placed += sub.len();
    }
    assert_eq!(placed, original.len());
    for seg in &original {
        assert!(result.iter().any(|sub| sub.contains(seg)));
    }
}
