use pil2_stark_setup::bin_file::{write_constraints_section, write_expressions_section, write_hints_section};
use pil2_stark_setup::bin_file_writer::{le_bytes_exec, BinFileWriter};
use pil2_stark_setup::error::SetupError;
use pil2_stark_setup::parser_args::ExpsInfo;
use pil2_stark_setup::stark_info::{Hint, HintField, HintFieldValue};
use pil2_stark_setup::text::parse_u64_exec;

fn info(ops: Vec<u64>, args: Vec<u64>, line: &str) -> ExpsInfo {
    ExpsInfo {
        n_temp1: 1,
        n_temp3: 2,
        ops,
        args,
        dest_dim: 3,
        dest_id: 4,
        exp_id: 5,
        stage: 6,
        line: line.to_string(),
        first_row: 7,
        last_row: 8,
        im_pol: 9,
    }
}

fn u32s(v: &[u32]) -> Vec<u8> {
    v.iter().flat_map(|x| x.to_le_bytes()).collect()
}

#[test]
fn header_holds_magic_version_and_sections() {
    let w = BinFileWriter::new("chps", 1, 3);
    let (bytes, complete) = w.close();
    assert_eq!(bytes, vec![b'c', b'h', b'p', b's', 1, 0, 0, 0, 3, 0, 0, 0]);
    assert!(!complete);
}

#[test]
fn section_size_is_patched() {
    let mut w = BinFileWriter::new("abcd", 2, 1);
    w.start_write_section(7).unwrap();
    w.write_u16(0x0102);
    w.write_string("hi");
    w.end_write_section().unwrap();
    let (bytes, complete) = w.close();
    assert!(complete);
    let mut expected = vec![b'a', b'b', b'c', b'd', 2, 0, 0, 0, 1, 0, 0, 0, 7, 0, 0, 0];
    expected.extend_from_slice(&5u64.to_le_bytes());
    expected.extend_from_slice(&[2, 1, b'h', b'i', 0]);
    assert_eq!(bytes, expected);
}

#[test]
fn nested_sections_are_refused() {
    let mut w = BinFileWriter::new("abcd", 2, 1);
    assert_eq!(w.end_write_section(), Err(SetupError::NoSectionOpen));
    w.start_write_section(1).unwrap();
    assert_eq!(w.start_write_section(2), Err(SetupError::SectionAlreadyOpen));
}

#[test]
fn little_endian_bytes() {
    assert_eq!(le_bytes_exec(0x0102030405060708, 8), vec![8, 7, 6, 5, 4, 3, 2, 1]);
    assert_eq!(le_bytes_exec(0x1234, 2), vec![0x34, 0x12]);
}

#[test]
fn numbers_parse_like_std() {
    assert_eq!(parse_u64_exec("42"), Some(42));
    assert_eq!(parse_u64_exec("+7"), Some(7));
    assert_eq!(parse_u64_exec("18446744073709551615"), Some(u64::MAX));
    assert_eq!(parse_u64_exec("18446744073709551616"), None);
    assert_eq!(parse_u64_exec(""), None);
    assert_eq!(parse_u64_exec("+"), None);
    assert_eq!(parse_u64_exec("-1"), None);
    assert_eq!(parse_u64_exec("1a"), None);
    for s in ["0", "123", "+99", "x", "99999999999999999999"] {
        assert_eq!(parse_u64_exec(s), s.parse::<u64>().ok());
    }
}

#[test]
fn expressions_section_layout() {
    let infos = vec![info(vec![1, 2], vec![3], "a"), info(vec![4], vec![5, 6], "")];
    let numbers = vec!["10".to_string(), "bad".to_string()];
    let mut w = BinFileWriter::new("chps", 1, 1);
    write_expressions_section(&mut w, &infos, &numbers, 11, 12, 13, 14, 1).unwrap();
    let (bytes, _) = w.close();
    let mut payload = u32s(&[11, 12, 13, 14, 3, 3, 2, 2]);
    payload.extend(u32s(&[5, 3, 4, 6, 1, 2, 2, 0, 1, 0]));
    payload.extend_from_slice(&[b'a', 0]);
    payload.extend(u32s(&[5, 3, 4, 6, 1, 2, 1, 2, 2, 1]));
    payload.push(0);
    payload.extend_from_slice(&[1, 2, 4]);
    payload.extend_from_slice(&[3, 0, 5, 0, 6, 0]);
    payload.extend_from_slice(&10u64.to_le_bytes());
    payload.extend_from_slice(&0u64.to_le_bytes());
    let mut expected = vec![b'c', b'h', b'p', b's', 1, 0, 0, 0, 1, 0, 0, 0, 1, 0, 0, 0];
    expected.extend_from_slice(&(payload.len() as u64).to_le_bytes());
    expected.extend(payload);
    assert_eq!(bytes, expected);
}

#[test]
fn constraints_section_layout() {
    let infos = vec![info(vec![2], vec![1, 2], "c")];
    let numbers: Vec<String> = Vec::new();
    let mut w = BinFileWriter::new("chps", 1, 1);
    write_constraints_section(&mut w, &infos, &numbers, 2).unwrap();
    let (bytes, _) = w.close();
    let mut payload = u32s(&[1, 2, 0, 1]);
    payload.extend(u32s(&[6, 3, 4, 7, 8, 1, 2, 1, 0, 2, 0, 9]));
    payload.extend_from_slice(&[b'c', 0, 2, 1, 0, 2, 0]);
    assert_eq!(&bytes[12..16], &[2, 0, 0, 0]);
    assert_eq!(&bytes[16..24], &(payload.len() as u64).to_le_bytes());
    assert_eq!(&bytes[24..], &payload[..]);
}

fn value(op: &str) -> HintFieldValue {
    HintFieldValue {
        op: op.to_string(),
        id: 3,
        commit_id: 4,
        row_offset_index: 5,
        dim: 6,
        value: 7,
        string_value: "s".to_string(),
        airgroup_id: 0,
        pos: vec![1],
    }
}

#[test]
fn hints_section_layout() {
    let hints = vec![Hint {
        name: "h".to_string(),
        fields: vec![HintField { name: "f".to_string(), values: vec![value("custom"), value("number"), value("tmp")] }],
    }];
    let mut w = BinFileWriter::new("chps", 1, 1);
    write_hints_section(&mut w, &hints, 3).unwrap();
    let (bytes, _) = w.close();
    let mut payload = u32s(&[1]);
    payload.extend_from_slice(&[b'h', 0]);
    payload.extend(u32s(&[1]));
    payload.extend_from_slice(&[b'f', 0]);
    payload.extend(u32s(&[3]));
    payload.extend_from_slice(b"custom\0");
    payload.extend(u32s(&[3, 5, 4, 1, 1]));
    payload.extend_from_slice(b"number\0");
    payload.extend_from_slice(&7u64.to_le_bytes());
    payload.extend(u32s(&[1, 1]));
    payload.extend_from_slice(b"tmp\0");
    payload.extend(u32s(&[3, 6, 1, 1]));
    assert_eq!(&bytes[24..], &payload[..]);
}
