use pil2_stark_setup::expression::BoundaryKind;
use pil2_stark_setup::expression::Expression;
use pil2_stark_setup::map::{
    count_stage1_commitments, map_symbols, mark_im_pol_constraints, set_stage_info_symbols,
    split_im_pol_texts, ColumnMaps, MapOutcome,
};
use pil2_stark_setup::pilout_info::{ConstraintInfo, CustomCommitInfo, SymType, SymbolInfo};

fn maps_with_sections(n_stages: usize) -> ColumnMaps {
    let mut map_sections_n = vec![("const".to_string(), 0u64)];
    for s in 1..=n_stages + 1 {
        map_sections_n.push((format!("cm{}", s), 0));
    }
    ColumnMaps {
        cm_pols_map: Vec::new(),
        const_pols_map: Vec::new(),
        challenges_map: Vec::new(),
        publics_map: Vec::new(),
        proof_values_map: Vec::new(),
        airgroup_values_map: Vec::new(),
        air_values_map: Vec::new(),
        custom_commits_map: Vec::new(),
        map_sections_n,
    }
}

fn section(maps: &ColumnMaps, key: &str) -> u64 {
    maps.map_sections_n.iter().find(|(k, _)| k == key).map(|(_, v)| *v).unwrap()
}

fn witness(name: &str, stage: usize, pol_id: usize, dim: usize) -> SymbolInfo {
    SymbolInfo {
        name: name.to_string(),
        sym_type: SymType::Witness,
        stage: Some(stage),
        dim,
        pol_id: Some(pol_id),
        stage_id: Some(0),
        ..Default::default()
    }
}

fn fixed(name: &str, pol_id: usize) -> SymbolInfo {
    SymbolInfo {
        name: name.to_string(),
        sym_type: SymType::Fixed,
        stage: Some(0),
        dim: 1,
        pol_id: Some(pol_id),
        stage_id: Some(pol_id),
        ..Default::default()
    }
}

fn constraint(e: usize, line: &str) -> ConstraintInfo {
    ConstraintInfo {
        boundary: BoundaryKind::EveryRow,
        e,
        line: Some(line.to_string()),
        offset_min: None,
        offset_max: None,
        stage: None,
        im_pol: false,
    }
}

fn challenge(name: &str, stage: usize, id: usize) -> SymbolInfo {
    SymbolInfo {
        name: name.to_string(),
        sym_type: SymType::Challenge,
        stage: Some(stage),
        dim: 3,
        id: Some(id),
        stage_id: Some(0),
        ..Default::default()
    }
}

/// Maps an AIR that is not a recursion: the mapping, then the printing part
/// on an empty expression arena, as the setup does.
fn map_non_recursive(
    symbols: &mut Vec<SymbolInfo>,
    maps: &mut ColumnMaps,
    constraints: &mut Vec<ConstraintInfo>,
) -> (MapOutcome, Vec<String>, Vec<String>) {
    let mut expressions: Vec<Expression> = Vec::new();
    let out = pil2_stark_setup::map::map(symbols, maps, &[], 1, "test", constraints, &mut expressions, false);
    let (base, ext) = out.im_pols_info.clone();
    (out, base, ext)
}

#[test]
fn test_map_symbols_witness() {
    let symbols = vec![witness("a", 1, 0, 1), witness("b", 1, 1, 1)];
    let mut maps = maps_with_sections(1);
    map_symbols(&mut maps, &symbols, &[]);
    assert_eq!(maps.cm_pols_map.len(), 2);
    assert_eq!(maps.cm_pols_map[0].name, "a");
    assert_eq!(maps.cm_pols_map[1].name, "b");
    assert_eq!(section(&maps, "cm1"), 2);
}

#[test]
fn test_map_symbols_fixed() {
    let symbols = vec![fixed("f0", 0), fixed("f1", 1)];
    let mut maps = maps_with_sections(1);
    map_symbols(&mut maps, &symbols, &[]);
    assert_eq!(maps.const_pols_map.len(), 2);
    assert_eq!(maps.const_pols_map[0].name, "f0");
    assert_eq!(section(&maps, "const"), 2);
}

#[test]
fn test_map_symbols_challenge() {
    let symbols = vec![challenge("vc", 2, 0)];
    let mut maps = maps_with_sections(1);
    map_symbols(&mut maps, &symbols, &[]);
    assert_eq!(maps.challenges_map.len(), 1);
    assert_eq!(maps.challenges_map[0].name, "vc");
}

#[test]
fn challenges_are_padded_up_to_their_id() {
    let symbols = vec![fixed("f0", 0), challenge("vc", 2, 1)];
    let mut maps = maps_with_sections(1);
    map_symbols(&mut maps, &symbols, &[]);
    assert_eq!(maps.challenges_map.len(), 2);
    assert_eq!(maps.challenges_map[0].name, "");
    assert_eq!(maps.challenges_map[1].name, "vc");
    assert_eq!(section(&maps, "const"), 1);
}

#[test]
fn test_map_sections_n_multi_stage() {
    let symbols = vec![witness("a", 1, 0, 1), witness("b", 1, 1, 3), witness("c", 2, 2, 3)];
    let mut maps = maps_with_sections(2);
    map_symbols(&mut maps, &symbols, &[]);
    assert_eq!(section(&maps, "cm1"), 4);
    assert_eq!(section(&maps, "cm2"), 3);
}

#[test]
fn test_map_with_custom_commits() {
    let symbols = vec![SymbolInfo {
        name: "cc_col".to_string(),
        sym_type: SymType::Custom,
        stage: Some(0),
        dim: 1,
        pol_id: Some(0),
        stage_id: Some(0),
        commit_id: Some(0),
        ..Default::default()
    }];
    let mut maps = maps_with_sections(1);
    maps.custom_commits_map.push(Vec::new());
    maps.map_sections_n.push(("MyCC0".to_string(), 0));
    let cc = vec![CustomCommitInfo { name: "MyCC".to_string(), stage_widths: vec![1] }];
    map_symbols(&mut maps, &symbols, &cc);
    assert_eq!(maps.custom_commits_map[0].len(), 1);
    assert_eq!(maps.custom_commits_map[0][0].name, "cc_col");
    assert_eq!(section(&maps, "MyCC0"), 1);
}

#[test]
fn test_set_stage_info_symbols() {
    let mut symbols = vec![witness("a", 1, 0, 1), witness("b", 1, 1, 3)];
    let mut maps = maps_with_sections(1);
    map_symbols(&mut maps, &symbols, &[]);
    set_stage_info_symbols(&mut symbols, &mut maps, 1);
    assert_eq!(maps.cm_pols_map[0].stage_pos, Some(0));
    assert_eq!(maps.cm_pols_map[1].stage_pos, Some(1));
}

#[test]
fn stage_positions_follow_dimensions() {
    let mut symbols = vec![witness("a", 1, 0, 1), witness("b", 1, 1, 3), witness("q", 2, 2, 3)];
    let mut maps = maps_with_sections(1);
    map_symbols(&mut maps, &symbols, &[]);
    set_stage_info_symbols(&mut symbols, &mut maps, 1);
    assert_eq!(maps.cm_pols_map[1].stage_pos, Some(1));
    assert_eq!(maps.cm_pols_map[1].stage_id, Some(1));
    assert_eq!(symbols[1].stage_pos, Some(1));
    assert_eq!(maps.cm_pols_map[2].stage_pos, Some(0));
    assert_eq!(maps.cm_pols_map[2].stage_id, Some(0));
}

#[test]
fn test_map_marks_im_pol_constraints() {
    let mut symbols = vec![witness("a", 1, 0, 1)];
    let mut maps = maps_with_sections(1);
    let mut constraints = vec![constraint(0, "test.ImPol"), constraint(1, "some other constraint")];
    let (out, _, _) = map_non_recursive(&mut symbols, &mut maps, &mut constraints);
    assert_eq!(out.marked, vec![0]);
    assert!(constraints[0].im_pol);
    assert!(!constraints[1].im_pol);
    assert!(constraints[0].line.as_ref().unwrap().ends_with(" == 0"));
    assert!(constraints[1].line.as_ref().unwrap().ends_with(" == 0"));
    assert_eq!(constraints[0].line.as_deref(), Some(" == 0"));
    assert_eq!(constraints[1].line.as_deref(), Some("some other constraint == 0"));
    assert_eq!(out.n_commitments_stage1, 1);
}

#[test]
fn recursion_finishes_lines_without_printing() {
    let mut symbols = vec![witness("a", 1, 0, 1)];
    let mut maps = maps_with_sections(1);
    let mut constraints = vec![constraint(0, "test.ImPol"), constraint(1, "some other constraint")];
    let out = pil2_stark_setup::map::map(&mut symbols, &mut maps, &[], 1, "test", &mut constraints, &mut Vec::new(), true);
    assert_eq!(out.marked, vec![0]);
    assert_eq!(constraints[0].line.as_deref(), Some(" == 0"));
    assert_eq!(constraints[1].line.as_deref(), Some("some other constraint == 0"));
}

#[test]
fn test_n_commitments_stage1() {
    let mut symbols = vec![
        witness("a", 1, 0, 1),
        witness("b", 1, 1, 1),
        SymbolInfo {
            name: "test.ImPol".to_string(),
            sym_type: SymType::Witness,
            stage: Some(1),
            dim: 1,
            pol_id: Some(2),
            stage_id: Some(2),
            ..Default::default()
        },
    ];
    let mut maps = maps_with_sections(1);
    let mut constraints: Vec<ConstraintInfo> = Vec::new();
    let (out, _, _) = map_non_recursive(&mut symbols, &mut maps, &mut constraints);
    assert_eq!(out.n_commitments_stage1, 2);
    assert_eq!(count_stage1_commitments(&maps.cm_pols_map), 2);
}

#[test]
fn intermediate_columns_are_listed_with_their_expressions() {
    let mut symbols = vec![
        witness("a", 1, 0, 1),
        SymbolInfo {
            name: "test.ImPol".to_string(),
            sym_type: SymType::Witness,
            stage: Some(2),
            dim: 3,
            pol_id: Some(1),
            stage_id: Some(0),
            im_pol: true,
            exp_id: Some(5),
            ..Default::default()
        },
    ];
    let mut maps = maps_with_sections(1);
    let mut constraints: Vec<ConstraintInfo> = Vec::new();
    let out = pil2_stark_setup::map::map(&mut symbols, &mut maps, &[], 1, "test", &mut constraints, &mut Vec::new(), true);
    assert_eq!(out.im_pols, vec![(3, 5)]);
    assert_eq!(out.n_commitments_stage1, 1);
}

#[test]
fn test_map_empty_symbols() {
    let mut symbols: Vec<SymbolInfo> = Vec::new();
    let mut maps = maps_with_sections(1);
    let mut constraints: Vec<ConstraintInfo> = Vec::new();
    let (out, base, ext) = map_non_recursive(&mut symbols, &mut maps, &mut constraints);
    assert!(maps.cm_pols_map.is_empty());
    assert!(maps.const_pols_map.is_empty());
    assert_eq!(out.n_commitments_stage1, 0);
    assert!(base.is_empty() && ext.is_empty());
}

#[test]
fn marking_and_splitting() {
    let mut constraints = vec![constraint(0, "x.ImPol"), constraint(1, "y"), constraint(2, "x.ImPol")];
    let marked = mark_im_pol_constraints(&mut constraints, "x");
    assert_eq!(marked, vec![0, 2]);
    let (base, ext) = split_im_pol_texts(&vec![(1, 0), (3, 1), (1, 2)], &vec!["a".to_string(), "b".to_string()]);
    assert_eq!(base, vec!["a".to_string(), "".to_string()]);
    assert_eq!(ext, vec!["b".to_string()]);
}

#[test]
fn map_prints_intermediate_constraints_outside_recursion() {
    let mut symbols = vec![witness("a", 1, 0, 1)];
    let mut maps = maps_with_sections(1);
    let mut constraints = vec![constraint(0, "test.ImPol"), constraint(0, "other")];
    let mut number = Expression::new(pil2_stark_setup::expression::ExprOp::Number);
    number.value = Some("7".to_string());
    let mut expressions = vec![number];
    let out = pil2_stark_setup::map::map(&mut symbols, &mut maps, &[], 1, "test", &mut constraints, &mut expressions, false);
    assert_eq!(out.marked, vec![0]);
    assert_eq!(constraints[0].line.as_deref(), Some("7 == 0"));
    assert_eq!(constraints[1].line.as_deref(), Some("other == 0"));
    assert!(out.im_pols_info.0.is_empty() && out.im_pols_info.1.is_empty());
}
