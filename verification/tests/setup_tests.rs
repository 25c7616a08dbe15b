use pil2_stark_setup::expression::{BoundaryKind, ExprOp, Expression};
use pil2_stark_setup::pilout_info::{buf_to_bigint_string, ConstraintInfo, SymType, SymbolInfo};
use pil2_stark_setup::fri_poly::ChallengeMapEntry;
use pil2_stark_setup::recursive_setup::RecursiveTemplate;
use pil2_stark_setup::setup_cmd::{collect_opening_points, compute_folding_factors, merge_challenges, starkinfo_boundaries};
use pil2_stark_setup::stark_info::{StarkStruct, StepStruct};

#[test]
fn test_buf_to_bigint_string() {
    assert_eq!(buf_to_bigint_string(&[]), "0");
    assert_eq!(buf_to_bigint_string(&[0]), "0");
    assert_eq!(buf_to_bigint_string(&[1]), "1");
    assert_eq!(buf_to_bigint_string(&[0, 0, 0, 0, 0, 0, 0, 42]), "42");
    assert_eq!(buf_to_bigint_string(&[1, 0]), "256");
}

#[test]
fn bigint_string_of_large_value() {
    assert_eq!(buf_to_bigint_string(&[255, 255, 255, 255, 255, 255, 255, 255]), "18446744073709551615");
    assert_eq!(buf_to_bigint_string(&[1, 0, 0, 0, 0, 0, 0, 0, 0]), "18446744073709551616");
}

#[test]
fn test_recursive_template_str() {
    assert_eq!(RecursiveTemplate::Compressor.as_str(), "compressor");
    assert_eq!(RecursiveTemplate::Recursive1.as_str(), "recursive1");
    assert_eq!(RecursiveTemplate::Recursive2.as_str(), "recursive2");
}

#[test]
fn recursive_template_paths() {
    assert_eq!(RecursiveTemplate::Compressor.tera_template(), "vadcop/compressor.circom.tera");
    assert_eq!(RecursiveTemplate::Recursive2.tera_template(), "vadcop/recursive2.circom.tera");
}

fn with_offsets(offsets: Vec<i64>) -> Expression {
    let mut e = Expression::new(ExprOp::Cm);
    e.rows_offsets = offsets;
    e
}

#[test]
fn opening_points_are_sorted_as_text() {
    let mut kept = with_offsets(vec![3, 10]);
    kept.keep = Some(true);
    let expressions = vec![with_offsets(vec![-1, 1]), with_offsets(vec![-2, 0, 1]), kept, with_offsets(vec![7])];
    let constraints = vec![
        ConstraintInfo { boundary: BoundaryKind::EveryRow, e: 0, line: None, offset_min: None, offset_max: None, stage: None, im_pol: false },
        ConstraintInfo { boundary: BoundaryKind::EveryRow, e: 1, line: None, offset_min: None, offset_max: None, stage: None, im_pol: false },
    ];
    let points = collect_opening_points(&constraints, &expressions);
    assert_eq!(points, vec![-1, -2, 0, 1, 10, 3]);
}

#[test]
fn opening_points_always_hold_zero() {
    let points = collect_opening_points(&[], &[]);
    assert_eq!(points, vec![0]);
}

#[test]
fn folding_factors_are_bit_drops() {
    let s = StarkStruct {
        n_bits: 10,
        n_bits_ext: 12,
        n_queries: 8,
        hash_commits: true,
        last_level_verification: 0,
        merkle_tree_arity: 2,
        steps: vec![StepStruct { n_bits: 12 }, StepStruct { n_bits: 8 }, StepStruct { n_bits: 5 }],
        pow_bits: 0,
    };
    assert_eq!(compute_folding_factors(&s), vec![4, 3]);
}

#[test]
fn bigint_string_beyond_128_bits() {
    let mut buf = vec![1u8];
    buf.extend(std::iter::repeat(0u8).take(16));
    assert_eq!(buf_to_bigint_string(&buf), "340282366920938463463374607431768211456");
    assert_eq!(buf_to_bigint_string(&[0u8; 20]), "0");
    assert_eq!(buf_to_bigint_string(&[255u8; 20]), "1461501637330902918203684832716283019655932542975");
}

fn constraint_on(boundary: BoundaryKind, omin: Option<u32>) -> ConstraintInfo {
    ConstraintInfo { boundary, e: 0, line: None, offset_min: omin, offset_max: omin, stage: None, im_pol: false }
}

#[test]
fn starkinfo_boundaries_first_seen_once() {
    let cs = vec![
        constraint_on(BoundaryKind::FirstRow, None),
        constraint_on(BoundaryKind::EveryFrame, Some(1)),
        constraint_on(BoundaryKind::FirstRow, None),
        constraint_on(BoundaryKind::EveryFrame, Some(2)),
    ];
    let b = starkinfo_boundaries(&cs);
    assert_eq!(b.len(), 2);
    assert_eq!(b[0].name, BoundaryKind::FirstRow);
    assert_eq!(b[1].name, BoundaryKind::EveryFrame);
    assert_eq!(b[1].offset_min, Some(1));
    let none = starkinfo_boundaries(&[]);
    assert_eq!(none.len(), 1);
    assert_eq!(none[0].name, BoundaryKind::EveryRow);
}

#[test]
fn starkinfo_challenges_merge_by_index() {
    let setup = vec![
        SymbolInfo { name: "std_alpha".to_string(), sym_type: SymType::Challenge, stage: Some(2), dim: 3, stage_id: Some(0), ..Default::default() },
        SymbolInfo::default(),
    ];
    let fri = vec![
        ChallengeMapEntry { name: String::new(), stage: 0, dim: 0, stage_id: 0 },
        ChallengeMapEntry { name: String::new(), stage: 0, dim: 0, stage_id: 0 },
        ChallengeMapEntry { name: "std_vf1".to_string(), stage: 4, dim: 3, stage_id: 0 },
        ChallengeMapEntry { name: "std_vf2".to_string(), stage: 4, dim: 3, stage_id: 1 },
    ];
    let m = merge_challenges(&setup, &fri);
    assert_eq!(m.len(), 3);
    assert_eq!(m[0].name, "std_alpha");
    assert_eq!(m[0].stage, 2);
    assert_eq!(m[1].name, "std_vf1");
    assert_eq!(m[2].name, "std_vf2");
    assert_eq!(m[2].stage_id, 1);
}

#[test]
fn air_work_items_skip_empty_airs_and_name_the_unnamed() {
    let groups = vec![
        pil2_stark_setup::setup_cmd::AirgroupDesc {
            name: Some("Zisk".to_string()),
            airs: vec![
                pil2_stark_setup::setup_cmd::AirDesc { name: Some("Main".to_string()), num_rows: Some(1 << 4) },
                pil2_stark_setup::setup_cmd::AirDesc { name: Some("Empty".to_string()), num_rows: Some(0) },
                pil2_stark_setup::setup_cmd::AirDesc { name: None, num_rows: Some(8) },
            ],
        },
        pil2_stark_setup::setup_cmd::AirgroupDesc {
            name: None,
            airs: vec![pil2_stark_setup::setup_cmd::AirDesc { name: Some("Rom".to_string()), num_rows: None }],
        },
        pil2_stark_setup::setup_cmd::AirgroupDesc {
            name: None,
            airs: vec![pil2_stark_setup::setup_cmd::AirDesc { name: None, num_rows: Some(2) }],
        },
    ];
    let items = pil2_stark_setup::setup_cmd::air_work_items(&groups);
    assert_eq!(items.len(), 3);
    assert_eq!((items[0].ag_idx, items[0].air_idx, items[0].num_rows), (0, 0, 16));
    assert_eq!(items[0].airgroup_name, "Zisk");
    assert_eq!(items[0].air_name, "Main");
    assert_eq!((items[1].ag_idx, items[1].air_idx), (0, 2));
    assert_eq!(items[1].air_name, "air_2");
    assert_eq!((items[2].ag_idx, items[2].air_idx), (2, 0));
    assert_eq!(items[2].airgroup_name, "airgroup_2");
    assert_eq!(items[2].air_name, "air_0");
}

#[test]
fn settings_fall_back_to_default() {
    let names = vec!["default".to_string(), "Main".to_string()];
    assert_eq!(pil2_stark_setup::setup_cmd::settings_index(&names, "Main"), Some(1));
    assert_eq!(pil2_stark_setup::setup_cmd::settings_index(&names, "Rom"), Some(0));
    let none: Vec<String> = vec!["Other".to_string()];
    assert_eq!(pil2_stark_setup::setup_cmd::settings_index(&none, "Rom"), None);
    assert_eq!(pil2_stark_setup::setup_cmd::pow_bits_or_default(None), 16);
    assert_eq!(pil2_stark_setup::setup_cmd::pow_bits_or_default(Some(20)), 20);
}

#[test]
fn description_column_maps() {
    let fixed = vec![SymbolInfo {
        name: "L1".to_string(),
        sym_type: SymType::Fixed,
        stage: Some(0),
        dim: 1,
        stage_id: Some(2),
        lengths: Some(vec![4]),
        ..Default::default()
    }];
    let c = pil2_stark_setup::setup_cmd::const_pols_output(&fixed);
    assert_eq!(c.len(), 1);
    assert_eq!((c[0].stage, c[0].pols_map_id, c[0].stage_id), (0, 0, 2));
    assert_eq!(c[0].lengths, Some(vec![4]));
    assert_eq!(c[0].stage_pos, None);

    let witness = vec![
        SymbolInfo {
            name: "a".to_string(),
            sym_type: SymType::Witness,
            stage: Some(2),
            dim: 3,
            stage_id: Some(1),
            stage_pos: Some(5),
            im_pol: true,
            exp_id: Some(9),
            lengths: Some(vec![2]),
            ..Default::default()
        },
        SymbolInfo {
            name: "Q0".to_string(),
            sym_type: SymType::Witness,
            stage: Some(3),
            dim: 3,
            stage_pos: Some(0),
            im_pol: true,
            exp_id: Some(1),
            ..Default::default()
        },
    ];
    let m = pil2_stark_setup::setup_cmd::cm_pols_output(&witness, 2);
    assert_eq!((m[0].stage, m[0].pols_map_id, m[0].stage_id, m[0].stage_pos), (2, 0, 1, Some(5)));
    assert_eq!((m[0].im_pol, m[0].exp_id), (Some(true), Some(9)));
    assert_eq!(m[0].lengths, Some(vec![2]));
    assert_eq!((m[1].stage, m[1].pols_map_id, m[1].stage_id, m[1].stage_pos), (3, 1, 0, Some(0)));
    assert_eq!((m[1].im_pol, m[1].exp_id, m[1].lengths.clone()), (None, None, None));

    let v = pil2_stark_setup::setup_cmd::values_output(&fixed);
    assert_eq!((v[0].name.as_str(), v[0].stage), ("L1", 0));
    let p = pil2_stark_setup::setup_cmd::publics_output(&witness);
    assert_eq!((p[1].name.as_str(), p[1].stage), ("Q0", 3));
    assert_eq!(pil2_stark_setup::setup_cmd::output_q_deg(0), 1);
    assert_eq!(pil2_stark_setup::setup_cmd::output_q_deg(3), 3);
}
