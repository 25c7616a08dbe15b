use pil2_stark_setup::error::SetupError;
use pil2_stark_setup::pilout_info::SymType;
use pil2_stark_setup::symbols::{format_symbols, AirGroupValueInfo, AirValueInfo, PilSymbol, PilSymbolType};

fn sym(name: &str, t: PilSymbolType, id: u32, stage: Option<u32>) -> PilSymbol {
    PilSymbol {
        name: name.to_string(),
        air_group_id: Some(0),
        air_id: Some(0),
        sym_type: t,
        id,
        stage,
        dim: 0,
        lengths: Vec::new(),
        commit_id: None,
    }
}

#[test]
fn columns_get_their_index_by_stage_then_id() {
    let all = vec![
        sym("b", PilSymbolType::WitnessCol, 0, Some(2)),
        sym("a", PilSymbolType::WitnessCol, 1, Some(1)),
        sym("c", PilSymbolType::WitnessCol, 0, Some(1)),
        sym("f", PilSymbolType::FixedCol, 0, Some(0)),
        sym("im", PilSymbolType::ImCol, 0, Some(1)),
    ];
    let out = format_symbols(&all, &[], &[]).unwrap();
    assert_eq!(out.len(), 4);
    assert_eq!(out[0].name, "b");
    assert_eq!(out[0].pol_id, Some(2));
    assert_eq!(out[0].dim, 3);
    assert_eq!(out[1].pol_id, Some(1));
    assert_eq!(out[2].pol_id, Some(0));
    assert_eq!(out[2].stage_id, Some(0));
    assert_eq!(out[3].sym_type, SymType::Fixed);
    assert_eq!(out[3].pol_id, Some(0));
    assert_eq!(out[3].dim, 1);
}

#[test]
fn arrays_are_expanded_in_row_major_order() {
    let mut arr = sym("arr", PilSymbolType::WitnessCol, 1, Some(1));
    arr.dim = 2;
    arr.lengths = vec![2, 3];
    let all = vec![sym("x", PilSymbolType::WitnessCol, 0, Some(1)), arr];
    let out = format_symbols(&all, &[], &[]).unwrap();
    assert_eq!(out.len(), 7);
    assert_eq!(out[1].lengths, Some(vec![0, 0]));
    assert_eq!(out[2].lengths, Some(vec![0, 1]));
    assert_eq!(out[4].lengths, Some(vec![1, 0]));
    assert_eq!(out[6].lengths, Some(vec![1, 2]));
    assert_eq!(out[6].pol_id, Some(6));
    assert_eq!(out[6].id, Some(6));
    assert_eq!(out[6].idx, Some(5));
    assert_eq!(out[6].stage_id, Some(6));
}

#[test]
fn challenges_are_numbered_by_stage() {
    let all = vec![
        sym("c2", PilSymbolType::Challenge, 0, Some(2)),
        sym("c1b", PilSymbolType::Challenge, 1, Some(1)),
        sym("c1a", PilSymbolType::Challenge, 0, Some(1)),
    ];
    let out = format_symbols(&all, &[], &[]).unwrap();
    assert_eq!(out[0].id, Some(2));
    assert_eq!(out[1].id, Some(1));
    assert_eq!(out[2].id, Some(0));
    assert_eq!(out[0].dim, 3);
}

#[test]
fn values_take_their_stage() {
    let all = vec![
        sym("ag", PilSymbolType::AirGroupValue, 0, None),
        sym("ag0", PilSymbolType::AirGroupValue, 1, None),
        sym("av", PilSymbolType::AirValue, 0, None),
        sym("pub", PilSymbolType::PublicValue, 3, None),
        sym("pv", PilSymbolType::ProofValue, 0, None),
    ];
    let ags = vec![AirGroupValueInfo { stage: 2 }, AirGroupValueInfo { stage: 0 }];
    let avs = vec![AirValueInfo { stage: 1 }];
    let out = format_symbols(&all, &ags, &avs).unwrap();
    assert_eq!(out[0].stage, Some(2));
    assert_eq!(out[1].stage, None);
    assert_eq!(out[2].stage, Some(1));
    assert_eq!(out[2].dim, 1);
    assert_eq!(out[3].stage, Some(1));
    assert_eq!(out[3].id, Some(3));
    assert_eq!(out[4].stage, Some(1));
    assert_eq!(out[4].dim, 1);
}

#[test]
fn custom_columns_outside_stage_zero_are_refused() {
    let mut c = sym("cc", PilSymbolType::CustomCol, 0, Some(1));
    c.commit_id = Some(0);
    let r = format_symbols(&[c], &[], &[]);
    assert!(matches!(r, Err(SetupError::InvalidCustomStage)));
    let mut ok = sym("cc", PilSymbolType::CustomCol, 0, Some(0));
    ok.commit_id = Some(0);
    let out = format_symbols(&[ok], &[], &[]).unwrap();
    assert_eq!(out[0].commit_id, Some(0));
    assert_eq!(out[0].sym_type, SymType::Custom);
}
