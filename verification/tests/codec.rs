//! Wire codec behavior: encode/decode round trips, truncation, cycle
//! rejection, and the struct decoding scenario.

use someip_analyzer::codec::{decode, encode, CodecAnalysis, CodecError, Value};
use someip_analyzer::loader::DataTypeDefinitionRecord;
use someip_analyzer::matrix::{
    Matrix, MatrixDataNode, MatrixMember, MatrixSerializationParameter, MatrixType, NumberType,
    StringArrayLength,
};

fn type_row(
    name: &str,
    category: &str,
    member_name: Option<&str>,
    member_ref: Option<&str>,
    data_type: Option<&str>,
) -> DataTypeDefinitionRecord {
    DataTypeDefinitionRecord {
        parameter_data_type_name: Some(name.to_string()),
        data_type_description: None,
        data_category: Some(category.to_string()),
        string_array_length_type: None,
        string_array_length_min: None,
        string_array_length_max: None,
        member_name: member_name.map(|s| s.to_string()),
        member_description: None,
        member_data_type_reference: member_ref.map(|s| s.to_string()),
        data_type: data_type.map(|s| s.to_string()),
    }
}

fn matrix_of(datatypes: Vec<DataTypeDefinitionRecord>) -> Matrix {
    Matrix::from_rows(&"1.0".to_string(), &vec![], &datatypes, &vec![]).unwrap().0
}

/// Parameters without struct length fields, single-byte length fields.
fn bare_params() -> MatrixSerializationParameter {
    MatrixSerializationParameter::default()
}

#[test]
fn scenario_point_struct_decodes() {
    let m = matrix_of(vec![
        type_row("Point", "Struct", Some("x"), None, Some("uint32")),
        type_row("Point", "Struct", Some("y"), None, Some("uint32")),
    ]);
    let a = CodecAnalysis::analyze(&m);
    let params = bare_params();
    let bytes = vec![0x00, 0x00, 0x00, 0x05, 0x00, 0x00, 0x00, 0x07];
    let v = decode(&m, &a, &params, &"Point".to_string(), &bytes).unwrap();
    match v {
        Value::Record(fields) => {
            assert_eq!(fields.len(), 2);
            assert_eq!(fields[0].0, "x");
            assert_eq!(fields[0].1, Value::Number(5));
            assert_eq!(fields[1].0, "y");
            assert_eq!(fields[1].1, Value::Number(7));
        }
        other => panic!("unexpected value: {:?}", other),
    }
}

#[test]
fn round_trip_struct_value() {
    let m = matrix_of(vec![
        type_row("Point", "Struct", Some("x"), None, Some("uint32")),
        type_row("Point", "Struct", Some("y"), None, Some("uint32")),
    ]);
    let a = CodecAnalysis::analyze(&m);
    let params = bare_params();
    let v = Value::Record(vec![
        ("x".to_string(), Value::Number(0xDEAD)),
        ("y".to_string(), Value::Number(0xBEEF)),
    ]);
    let bytes = encode(&m, &params, &"Point".to_string(), &v).unwrap();
    assert_eq!(bytes, vec![0x00, 0x00, 0xDE, 0xAD, 0x00, 0x00, 0xBE, 0xEF]);
    let back = decode(&m, &a, &params, &"Point".to_string(), &bytes).unwrap();
    assert_eq!(back, v);
}

#[test]
fn round_trip_number_widths() {
    let m = matrix_of(vec![
        type_row("Narrow", "Integer", None, None, Some("uint8")),
        type_row("Wide", "Integer", None, None, Some("uint64")),
    ]);
    let a = CodecAnalysis::analyze(&m);
    let params = bare_params();
    for value in [0u64, 1, 255] {
        let b = encode(&m, &params, &"Narrow".to_string(), &Value::Number(value)).unwrap();
        assert_eq!(b.len(), 1);
        assert_eq!(decode(&m, &a, &params, &"Narrow".to_string(), &b).unwrap(), Value::Number(value));
    }
    let b = encode(&m, &params, &"Wide".to_string(), &Value::Number(u64::MAX)).unwrap();
    assert_eq!(b.len(), 8);
    assert_eq!(decode(&m, &a, &params, &"Wide".to_string(), &b).unwrap(), Value::Number(u64::MAX));
}

#[test]
fn number_too_wide_is_rejected_by_encode() {
    let m = matrix_of(vec![type_row("Narrow", "Integer", None, None, Some("uint8"))]);
    let err = encode(&m, &bare_params(), &"Narrow".to_string(), &Value::Number(256)).unwrap_err();
    assert_eq!(err, CodecError::InvalidEncoding);
}

#[test]
fn round_trip_dynamic_string() {
    let mut row = type_row("Name", "String", None, None, Some("utf-8"));
    row.string_array_length_type = Some("Dynamic".to_string());
    row.string_array_length_min = Some("0".to_string());
    row.string_array_length_max = Some("200".to_string());
    let m = matrix_of(vec![row]);
    let a = CodecAnalysis::analyze(&m);
    let params = bare_params();
    let v = Value::Text(vec![b'h', b'i']);
    let bytes = encode(&m, &params, &"Name".to_string(), &v).unwrap();
    // 1-byte length (6), BOM EF BB BF, content, zero terminator.
    assert_eq!(bytes, vec![6, 0xEF, 0xBB, 0xBF, b'h', b'i', 0x00]);
    assert_eq!(decode(&m, &a, &params, &"Name".to_string(), &bytes).unwrap(), v);
}

#[test]
fn bad_bom_is_invalid_encoding() {
    let mut row = type_row("Name", "String", None, None, Some("utf-8"));
    row.string_array_length_type = Some("Dynamic".to_string());
    row.string_array_length_min = Some("0".to_string());
    row.string_array_length_max = Some("200".to_string());
    let m = matrix_of(vec![row]);
    let a = CodecAnalysis::analyze(&m);
    let bytes = vec![4, 0xAA, 0xBB, 0xBF, 0x00];
    let err = decode(&m, &a, &bare_params(), &"Name".to_string(), &bytes).unwrap_err();
    assert_eq!(err, CodecError::InvalidEncoding);
}

#[test]
fn round_trip_dynamic_array() {
    let mut row = type_row("Samples", "Array", Some("sample"), None, Some("uint16"));
    row.string_array_length_type = Some("Dynamic".to_string());
    row.string_array_length_min = Some("0".to_string());
    row.string_array_length_max = Some("100".to_string());
    let m = matrix_of(vec![row]);
    let a = CodecAnalysis::analyze(&m);
    let params = bare_params();
    let v = Value::List(vec![Value::Number(1), Value::Number(0x0203)]);
    let bytes = encode(&m, &params, &"Samples".to_string(), &v).unwrap();
    assert_eq!(bytes, vec![4, 0x00, 0x01, 0x02, 0x03]);
    assert_eq!(decode(&m, &a, &params, &"Samples".to_string(), &bytes).unwrap(), v);
}

#[test]
fn truncated_payload_is_reported() {
    let m = matrix_of(vec![
        type_row("Point", "Struct", Some("x"), None, Some("uint32")),
        type_row("Point", "Struct", Some("y"), None, Some("uint32")),
    ]);
    let a = CodecAnalysis::analyze(&m);
    let bytes = vec![0x00, 0x00, 0x00];
    let err = decode(&m, &a, &bare_params(), &"Point".to_string(), &bytes).unwrap_err();
    assert_eq!(err, CodecError::TruncatedInput);
}

#[test]
fn trailing_bytes_are_a_length_mismatch() {
    let m = matrix_of(vec![type_row("Narrow", "Integer", None, None, Some("uint8"))]);
    let a = CodecAnalysis::analyze(&m);
    let bytes = vec![1, 2];
    let err = decode(&m, &a, &bare_params(), &"Narrow".to_string(), &bytes).unwrap_err();
    assert_eq!(err, CodecError::LengthMismatch);
}

#[test]
fn self_referencing_struct_is_rejected() {
    let m = matrix_of(vec![type_row(
        "Struct_Loop",
        "Struct",
        Some("again"),
        Some("Struct_Loop"),
        Some("struct"),
    )]);
    let a = CodecAnalysis::analyze(&m);
    let bytes = vec![0u8; 64];
    let err = decode(&m, &a, &bare_params(), &"Struct_Loop".to_string(), &bytes).unwrap_err();
    assert_eq!(err, CodecError::UnboundedType);
}

#[test]
fn cycle_with_dynamic_exit_decodes() {
    // A struct holding a dynamic array of itself is bounded: an empty
    // array ends the recursion.
    let mut arr = type_row("Kids", "Array", Some("kid"), Some("Node"), Some("struct"));
    arr.string_array_length_type = Some("Dynamic".to_string());
    arr.string_array_length_min = Some("0".to_string());
    arr.string_array_length_max = Some("10".to_string());
    let m = matrix_of(vec![
        type_row("Node", "Struct", Some("kids"), Some("Kids"), Some("array")),
        arr,
    ]);
    let a = CodecAnalysis::analyze(&m);
    let params = bare_params();
    // One node whose kid list holds one node with no kids:
    // outer: kids -> [inner], inner: kids -> [].
    let inner = Value::Record(vec![("kids".to_string(), Value::List(vec![]))]);
    let outer = Value::Record(vec![("kids".to_string(), Value::List(vec![inner]))]);
    let bytes = encode(&m, &params, &"Node".to_string(), &outer).unwrap();
    assert_eq!(bytes, vec![1, 0]);
    assert_eq!(decode(&m, &a, &params, &"Node".to_string(), &bytes).unwrap(), outer);
}

#[test]
fn struct_length_field_round_trip() {
    let m = matrix_of(vec![
        type_row("Point", "Struct", Some("x"), None, Some("uint16")),
        type_row("Point", "Struct", Some("y"), None, Some("uint16")),
    ]);
    let a = CodecAnalysis::analyze(&m);
    let mut params = bare_params();
    params.length_field_for_struct = true;
    let v = Value::Record(vec![
        ("x".to_string(), Value::Number(7)),
        ("y".to_string(), Value::Number(9)),
    ]);
    let bytes = encode(&m, &params, &"Point".to_string(), &v).unwrap();
    assert_eq!(bytes, vec![4, 0x00, 0x07, 0x00, 0x09]);
    assert_eq!(decode(&m, &a, &params, &"Point".to_string(), &bytes).unwrap(), v);
    // A lying length prefix is a mismatch.
    let bad = vec![3, 0x00, 0x07, 0x00, 0x09];
    assert_eq!(
        decode(&m, &a, &params, &"Point".to_string(), &bad).unwrap_err(),
        CodecError::LengthMismatch
    );
}

#[test]
fn round_trip_utf16_string() {
    let mut row = type_row("Wide", "String", None, None, Some("utf-16"));
    row.string_array_length_type = Some("Dynamic".to_string());
    row.string_array_length_min = Some("0".to_string());
    row.string_array_length_max = Some("64".to_string());
    let m = matrix_of(vec![row]);
    let a = CodecAnalysis::analyze(&m);
    let params = bare_params();
    let v = Value::Text(vec![0x68, 0x00, 0x69, 0x00]); // "hi" in UTF-16LE units
    let bytes = encode(&m, &params, &"Wide".to_string(), &v).unwrap();
    // length 8: BOM FF FE + four content bytes + two zero terminators.
    assert_eq!(bytes, vec![8, 0xFF, 0xFE, 0x68, 0x00, 0x69, 0x00, 0x00, 0x00]);
    assert_eq!(decode(&m, &a, &params, &"Wide".to_string(), &bytes).unwrap(), v);
    // Odd content length does not conform.
    let odd = Value::Text(vec![0x68]);
    assert!(encode(&m, &params, &"Wide".to_string(), &odd).is_err());
}

#[test]
fn round_trip_fixed_array() {
    let m = Matrix {
        version: "1.0".to_string(),
        services: vec![],
        data_types: vec![
            MatrixDataNode {
                name: "Triple".to_string(),
                description: String::new(),
                data_type: MatrixType::Array {
                    length: StringArrayLength::FIXED(3),
                    member: MatrixMember {
                        member_name: "cell".to_string(),
                        member_description: String::new(),
                        member_ref: "uint8".to_string(),
                    },
                },
            },
            MatrixDataNode {
                name: "uint8".to_string(),
                description: String::new(),
                data_type: MatrixType::Number { size: NumberType::Uint8 },
            },
        ],
        serialization_parameter: bare_params(),
        roles: vec![],
    };
    let a = CodecAnalysis::analyze(&m);
    let params = bare_params();
    let v = Value::List(vec![Value::Number(1), Value::Number(2), Value::Number(3)]);
    let bytes = encode(&m, &params, &"Triple".to_string(), &v).unwrap();
    assert_eq!(bytes, vec![1, 2, 3]);
    assert_eq!(decode(&m, &a, &params, &"Triple".to_string(), &bytes).unwrap(), v);
    // A wrong element count does not conform.
    let short = Value::List(vec![Value::Number(1)]);
    assert!(encode(&m, &params, &"Triple".to_string(), &short).is_err());
}
