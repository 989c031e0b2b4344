use goldworm::arc_program::{ArcOpCode, ArcOpToken, ArcProgram, serialize_program, deserialize_program};

#[test]
fn arc_op_code_roundtrip() {
    for code in 0..8 {
        let op = ArcOpCode::from_byte(code).unwrap();
        assert_eq!(op.as_byte(), code);
    }
    assert!(ArcOpCode::from_byte(255).is_none());
}

#[test]
fn arc_op_token_creation() {
    let token = ArcOpToken::new(1, 0, 0, 0, 0, 0, 0, 0);
    assert_eq!(token.op_code(), 1);
    assert_eq!(token.op(), Some(ArcOpCode::Rotate));
    assert_eq!(token.param(0), 0);
}

#[test]
fn arc_op_token_from_parts() {
    let token = ArcOpToken::from_parts(4, &[1, 2, 3]);
    assert_eq!(token.bytes(), &[4, 1, 2, 3, 0, 0, 0, 0]);
}

#[test]
fn arc_program_describe() {
    let program = ArcProgram::from_tokens(vec![
        ArcOpToken::new(1, 0, 0, 0, 0, 0, 0, 0),
        ArcOpToken::new(4, 1, 0, 0, 0, 0, 0, 0),
    ]);
    assert_eq!(program.describe(), "Rotate([0, 0, 0, 0, 0, 0, 0]) -> Fill([1, 0, 0, 0, 0, 0, 0])");
}

#[test]
fn serialize_deserialize_roundtrip() {
    let program = ArcProgram::from_tokens(vec![
        ArcOpToken::new(1, 0, 0, 0, 0, 0, 0, 0),
        ArcOpToken::new(4, 1, 0, 0, 0, 0, 0, 0),
    ]);
    let bytes = serialize_program(&program);
    let recovered = deserialize_program(&bytes).unwrap();
    assert_eq!(program, recovered);
}

#[test]
fn every_op_code_has_its_byte_and_name() {
    let names = [
        "Identity", "Rotate", "Flip", "Move", "Fill", "Copy", "Gravity", "Mirror", "Tile", "Crop",
        "ReplaceColor", "Scale", "CropContent",
    ];
    for code in 0..13u8 {
        let op = ArcOpCode::from_byte(code).unwrap();
        assert_eq!(op.as_byte(), code);
        assert_eq!(op.name(), names[code as usize]);
    }
    for code in 13..=255u8 {
        assert!(ArcOpCode::from_byte(code).is_none());
    }
}

#[test]
fn token_parts_and_params() {
    let token = ArcOpToken::from_parts(9, &[1, 2, 3, 4, 5, 6, 7, 8, 9]);
    assert_eq!(token.bytes(), &[9, 1, 2, 3, 4, 5, 6, 7]);
    assert_eq!(token.params(), [1, 2, 3, 4, 5, 6, 7]);
    assert_eq!(token.param(6), 7);
    assert_eq!(ArcOpToken::from_bytes(*token.bytes()), token);
    assert_eq!(token.op(), Some(ArcOpCode::Crop));
}

#[test]
fn describe_unknown_and_empty() {
    let program = ArcProgram::from_tokens(vec![ArcOpToken::new(200, 0, 0, 0, 0, 0, 0, 0)]);
    assert_eq!(program.describe(), "Unknown(200)");
    assert_eq!(ArcProgram::new().describe(), "");
}

#[test]
fn program_length_and_size() {
    let mut program = ArcProgram::default();
    assert!(program.is_empty());
    program.push(ArcOpToken::new(0, 0, 0, 0, 0, 0, 0, 0));
    program.push(ArcOpToken::new(2, 1, 0, 0, 0, 0, 0, 0));
    assert_eq!(program.len(), 2);
    assert_eq!(program.byte_size(), 16);
    assert_eq!(serialize_program(&program), vec![0, 0, 0, 0, 0, 0, 0, 0, 2, 1, 0, 0, 0, 0, 0, 0]);
}

#[test]
fn deserialize_rejects_partial_tokens() {
    assert!(deserialize_program(&[1, 2, 3]).is_none());
    assert_eq!(deserialize_program(&[]).unwrap().len(), 0);
}
