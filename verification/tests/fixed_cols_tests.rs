use pil2_stark_setup::error::SetupError;
use pil2_stark_setup::fixed_cols::{
    encode_fixed_cols_raw, encode_fixed_pols_bin, generate_fixed_cols_buffer, parse_fixed_pols_bin, AirFixedCols,
};

#[test]
fn constants_file_layout() {
    let info = vec![("F".to_string(), vec![2u32], vec![1u64, 0x0102])];
    let bytes = encode_fixed_pols_bin("G", "A", 2, &info);
    let mut expected: Vec<u8> = Vec::new();
    expected.extend_from_slice(b"cnst");
    expected.extend_from_slice(&1u32.to_le_bytes());
    expected.extend_from_slice(&1u32.to_le_bytes());
    expected.extend_from_slice(&1u32.to_le_bytes());
    let mut payload: Vec<u8> = Vec::new();
    payload.extend_from_slice(&1u32.to_le_bytes());
    payload.extend_from_slice(b"G");
    payload.extend_from_slice(&1u32.to_le_bytes());
    payload.extend_from_slice(b"A");
    payload.extend_from_slice(&2u64.to_le_bytes());
    payload.extend_from_slice(&1u32.to_le_bytes());
    payload.extend_from_slice(&1u32.to_le_bytes());
    payload.extend_from_slice(b"F");
    payload.extend_from_slice(&1u32.to_le_bytes());
    payload.extend_from_slice(&2u32.to_le_bytes());
    payload.extend_from_slice(&1u64.to_le_bytes());
    payload.extend_from_slice(&0x0102u64.to_le_bytes());
    expected.extend_from_slice(&(payload.len() as u64).to_le_bytes());
    expected.extend_from_slice(&payload);
    assert_eq!(bytes, expected);
}

#[test]
fn raw_buffer_is_little_endian_words() {
    let bytes = encode_fixed_cols_raw(&[1, 0x0203]);
    assert_eq!(bytes, vec![1, 0, 0, 0, 0, 0, 0, 0, 3, 2, 0, 0, 0, 0, 0, 0]);
}

#[test]
fn fixed_cols_buffer_is_row_major() {
    let air = AirFixedCols {
        num_rows: Some(1),
        fixed_cols: vec![
            vec![vec![1], vec![2, 1]],
            vec![vec![7, 0, 0, 0, 0, 0, 0, 0, 9]],
        ],
    };
    let (n, buf) = generate_fixed_cols_buffer(&air);
    assert_eq!(n, 2);
    assert_eq!(buf, vec![1, 7, 258, 0]);
}

#[test]
fn constants_file_reads_back() {
    let info = vec![
        ("Global.L1".to_string(), vec![], vec![1u64, 0, 0, 0]),
        ("Arr".to_string(), vec![2u32, 3], vec![5u64, 6, 7, u64::MAX]),
    ];
    let bytes = encode_fixed_pols_bin("Zisk", "Main", 4, &info);
    let f = parse_fixed_pols_bin(&bytes).unwrap();
    assert_eq!(f.airgroup_name, "Zisk");
    assert_eq!(f.air_name, "Main");
    assert_eq!(f.n, 4);
    assert_eq!(f.pols.len(), 2);
    assert_eq!(f.pols[0].name, "Global.L1");
    assert!(f.pols[0].info.lengths.is_empty());
    assert_eq!(f.pols[0].info.values, vec![1, 0, 0, 0]);
    assert_eq!(f.pols[1].info.lengths, vec![2, 3]);
    assert_eq!(f.pols[1].info.values, vec![5, 6, 7, u64::MAX]);
}

#[test]
fn constants_file_errors() {
    let info = vec![("F".to_string(), vec![], vec![1u64, 2])];
    let bytes = encode_fixed_pols_bin("G", "A", 2, &info);
    let mut bad = bytes.clone();
    bad[0] = b'x';
    assert!(matches!(parse_fixed_pols_bin(&bad), Err(SetupError::BadMagic)));
    assert!(matches!(parse_fixed_pols_bin(&bytes[..bytes.len() - 1]), Err(SetupError::Truncated)));
    assert!(matches!(parse_fixed_pols_bin(&bytes[..3]), Err(SetupError::Truncated)));
    let mut not_utf8 = bytes.clone();
    not_utf8[28] = 0xff;
    assert!(matches!(parse_fixed_pols_bin(&not_utf8), Err(SetupError::InvalidUtf8)));
}
