//! Loader behavior: cell parsing, the three passes, deduplication,
//! forward references and determinism.

use someip_analyzer::loader::{
    parse_dec_u16, parse_empty_or_hex, parse_hex_u16, parse_ipv4, DataTypeDefinitionRecord,
    DeploymentRecord, LoadError, ServiceInterfacesRecord,
};
use someip_analyzer::matrix::{Matrix, MatrixType, NumberType, StringArrayLength};
use someip_analyzer::types::IpAddress;

fn dep_row(
    name: &str,
    service_id: &str,
    instance: &str,
    major: &str,
    minor: &str,
    server: &str,
    server_ip: &str,
    port: &str,
    client: &str,
    client_ip: &str,
) -> DeploymentRecord {
    DeploymentRecord {
        service_interface_name: name.to_string(),
        service_id: service_id.to_string(),
        instance_id: instance.to_string(),
        major_version: major.to_string(),
        minor_version: minor.to_string(),
        server: server.to_string(),
        server_mac: String::new(),
        server_ip: server_ip.to_string(),
        server_port: port.to_string(),
        client: client.to_string(),
        client_mac: String::new(),
        client_ip: client_ip.to_string(),
    }
}

fn type_row(
    name: &str,
    category: &str,
    member_name: Option<&str>,
    member_ref: Option<&str>,
    data_type: Option<&str>,
) -> DataTypeDefinitionRecord {
    DataTypeDefinitionRecord {
        parameter_data_type_name: Some(name.to_string()),
        data_type_description: None,
        data_category: Some(category.to_string()),
        string_array_length_type: None,
        string_array_length_min: None,
        string_array_length_max: None,
        member_name: member_name.map(|s| s.to_string()),
        member_description: None,
        member_data_type_reference: member_ref.map(|s| s.to_string()),
        data_type: data_type.map(|s| s.to_string()),
    }
}

fn load(
    deployment: Vec<DeploymentRecord>,
    datatypes: Vec<DataTypeDefinitionRecord>,
    interfaces: Vec<ServiceInterfacesRecord>,
) -> Result<(Matrix, usize, usize), LoadError> {
    Matrix::from_rows(&"1.0".to_string(), &deployment, &datatypes, &interfaces)
}

#[test]
fn parses_hex_cells() {
    assert_eq!(parse_hex_u16("0x1234").unwrap(), 0x1234);
    assert_eq!(parse_hex_u16("1234").unwrap(), 0x1234);
    assert_eq!(parse_hex_u16("0xFFFF").unwrap(), 0xFFFF);
    assert_eq!(parse_hex_u16("0x0x1A").unwrap(), 0x1A);
    assert!(parse_hex_u16("0x10000").is_err());
    assert!(parse_hex_u16("").is_err());
    assert!(parse_hex_u16("zz").is_err());
}

#[test]
fn parses_decimal_cells() {
    assert_eq!(parse_dec_u16("30509").unwrap(), 30509);
    assert!(parse_dec_u16("65536").is_err());
    assert!(parse_dec_u16("12a").is_err());
}

#[test]
fn parses_optional_id_cells() {
    assert_eq!(parse_empty_or_hex(&None).unwrap(), None);
    assert_eq!(parse_empty_or_hex(&Some(String::new())).unwrap(), None);
    assert_eq!(parse_empty_or_hex(&Some("0x1234".to_string())).unwrap(), Some(0x1234));
    assert_eq!(parse_empty_or_hex(&Some("4660".to_string())).unwrap(), Some(4660));
    assert!(parse_empty_or_hex(&Some("bogus".to_string())).is_err());
}

#[test]
fn parses_dotted_quads() {
    assert_eq!(parse_ipv4("10.0.0.1"), Some(0x0A000001));
    assert_eq!(parse_ipv4("255.255.255.255"), Some(0xFFFFFFFF));
    assert_eq!(parse_ipv4("10.0.0"), None);
    assert_eq!(parse_ipv4("10.0.0.256"), None);
    assert_eq!(parse_ipv4("10.0.0.1.2"), None);
    assert_eq!(parse_ipv4("a.b.c.d"), None);
}

#[test]
fn parses_number_types() {
    assert_eq!(NumberType::try_from("uint32").unwrap(), NumberType::Uint32);
    assert_eq!(NumberType::try_from("double").unwrap(), NumberType::Float64);
    // The match is exact; the loader lowers its cells before calling.
    assert!(NumberType::try_from("UINT8").is_err());
    assert!(NumberType::try_from("quux").is_err());
}

#[test]
fn upper_case_number_cell_loads_through_the_pass() {
    let rows = vec![type_row("N", "Integer", None, None, Some("UINT8"))];
    let (m, _, _) = load(vec![], rows, vec![]).unwrap();
    let node = m.get_data_type(&"N".to_string()).unwrap();
    assert!(matches!(
        node.data_type,
        MatrixType::Number {
            size: NumberType::Uint8
        }
    ));
}

#[test]
fn deployment_scenario_one_triple_two_roles() {
    let rows = vec![dep_row(
        "DemoService",
        "0x1234",
        "0x1",
        "0x1",
        "0x0",
        "ECU_A",
        "10.0.0.1",
        "30509",
        "ECU_B",
        "10.0.0.2",
    )];
    let (m, _, _) = load(rows, vec![], vec![]).unwrap();
    let svc = m.lookup(0x1234).expect("service present");
    assert_eq!(svc.server_client.len(), 1);
    assert_eq!(svc.server_client[0].server, "ECU_A");
    assert_eq!(svc.server_client[0].server_port, 30509);
    assert_eq!(svc.server_client[0].client, "ECU_B");
    assert_eq!(svc.instance_id, 1);
    assert_eq!(svc.major_verison, 1);
    assert_eq!(svc.minor_version, 0);
    assert_eq!(m.roles.len(), 2);
    assert!(matches!(m.roles[0].ip_addr, IpAddress::V4(0x0A000001)));
    assert!(matches!(m.roles[1].ip_addr, IpAddress::V4(0x0A000002)));
    assert!(m.lookup(0x9999).is_none());
}

#[test]
fn duplicate_deployment_rows_yield_one_triple() {
    let rows = vec![
        dep_row(
            "DemoService",
            "0x1234",
            "0x1",
            "0x1",
            "0x0",
            "ECU_A",
            "10.0.0.1",
            "30509",
            "ECU_B",
            "10.0.0.2",
        ),
        dep_row(
            "DemoService",
            "0x1234",
            "0x1",
            "0x1",
            "0x0",
            "ECU_A",
            "10.0.0.1",
            "30509",
            "ECU_B",
            "10.0.0.2",
        ),
    ];
    let (m, _, _) = load(rows, vec![], vec![]).unwrap();
    let svc = m.lookup(0x1234).unwrap();
    assert_eq!(svc.server_client.len(), 1);
    assert_eq!(m.roles.len(), 2);
}

#[test]
fn forward_reference_resolves() {
    let rows = vec![
        type_row("Struct_Outer", "Struct", Some("inner"), Some("Struct_Inner"), Some("struct")),
        type_row("Struct_Inner", "Struct", Some("x"), None, Some("uint32")),
    ];
    let (m, _, _) = load(vec![], rows, vec![]).unwrap();
    let outer = m.get_data_type(&"Struct_Outer".to_string()).expect("outer exists");
    match &outer.data_type {
        MatrixType::Struct { members } => {
            assert_eq!(members.len(), 1);
            assert_eq!(members[0].member_ref, "Struct_Inner");
        }
        other => panic!("unexpected node shape: {:?}", other),
    }
    let inner = m.get_data_type(&"Struct_Inner".to_string()).expect("inner exists");
    assert!(matches!(inner.data_type, MatrixType::Struct { .. }));
}

#[test]
fn dangling_reference_is_rejected() {
    let rows = vec![type_row(
        "Struct_Outer",
        "Struct",
        Some("inner"),
        Some("Struct_Missing"),
        Some("struct"),
    )];
    let err = load(vec![], rows, vec![]).unwrap_err();
    assert!(matches!(err, LoadError::UnresolvedReference(_)));
}

#[test]
fn unknown_category_is_fatal() {
    let rows = vec![type_row("Oddball", "Blob", None, None, Some("uint8"))];
    let err = load(vec![], rows, vec![]).unwrap_err();
    assert!(matches!(err, LoadError::UnknownCategory(_)));
}

#[test]
fn missing_member_name_is_fatal() {
    let rows = vec![type_row("Struct_S", "Struct", None, None, Some("uint8"))];
    let err = load(vec![], rows, vec![]).unwrap_err();
    assert!(matches!(err, LoadError::MissingField(_)));
}

#[test]
fn malformed_number_type_is_fatal() {
    let rows = vec![type_row("N", "Integer", None, None, Some("uint13"))];
    let err = load(vec![], rows, vec![]).unwrap_err();
    assert!(matches!(err, LoadError::MalformedSource(_)));
}

#[test]
fn dynamic_length_parses_both_bounds() {
    let mut row = type_row("String_Name", "String", None, None, Some("utf-8"));
    row.string_array_length_type = Some("Dynamic".to_string());
    row.string_array_length_min = Some("0".to_string());
    row.string_array_length_max = Some("200".to_string());
    let (m, _, _) = load(vec![], vec![row], vec![]).unwrap();
    let node = m.get_data_type(&"String_Name".to_string()).unwrap();
    match &node.data_type {
        MatrixType::String { length, .. } => {
            assert_eq!(*length, StringArrayLength::DYNAMIC(0, 200));
        }
        other => panic!("unexpected node shape: {:?}", other),
    }
}

#[test]
fn fixed_length_keeps_the_declared_count() {
    let mut row = type_row("String_Name", "String", None, None, Some("utf-8"));
    row.string_array_length_type = Some("Fixed".to_string());
    row.string_array_length_min = Some("5".to_string());
    row.string_array_length_max = Some("5".to_string());
    let (m, _, _) = load(vec![], vec![row], vec![]).unwrap();
    let node = m.get_data_type(&"String_Name".to_string()).unwrap();
    match &node.data_type {
        MatrixType::String { length, .. } => {
            assert_eq!(*length, StringArrayLength::FIXED(5));
        }
        other => panic!("unexpected node shape: {:?}", other),
    }
}

#[test]
fn fixed_length_without_a_count_is_fatal() {
    let mut row = type_row("String_Name", "String", None, None, Some("utf-8"));
    row.string_array_length_type = Some("Fixed".to_string());
    let err = load(vec![], vec![row], vec![]).unwrap_err();
    assert!(matches!(err, LoadError::MissingField(_)));
}

#[test]
fn interfaces_set_description_and_skip_unknown_ids() {
    let deployment = vec![dep_row(
        "DemoService",
        "0x1234",
        "0x1",
        "0x1",
        "0x0",
        "ECU_A",
        "10.0.0.1",
        "30509",
        "ECU_B",
        "10.0.0.2",
    )];
    let interfaces = vec![
        ServiceInterfacesRecord {
            service_interface_name: "DemoService".to_string(),
            service_id: Some("0x1234".to_string()),
            service_description: "demo".to_string(),
        },
        ServiceInterfacesRecord {
            service_interface_name: "Ghost".to_string(),
            service_id: Some("0x4444".to_string()),
            service_description: "nowhere".to_string(),
        },
    ];
    let (m, _, skipped) = load(deployment, vec![], interfaces).unwrap();
    assert_eq!(m.lookup(0x1234).unwrap().service_description, "demo");
    assert_eq!(skipped, 1);
}

#[test]
fn loading_twice_is_deterministic() {
    let make = || {
        let deployment = vec![dep_row(
            "DemoService",
            "0x1234",
            "0x1",
            "0x1",
            "0x0",
            "ECU_A",
            "10.0.0.1",
            "30509",
            "ECU_B",
            "10.0.0.2",
        )];
        let datatypes = vec![
            type_row("Point", "Struct", Some("x"), None, Some("uint32")),
            type_row("Point", "Struct", Some("y"), None, Some("uint32")),
        ];
        load(deployment, datatypes, vec![]).unwrap().0
    };
    let a = make();
    let b = make();
    assert_eq!(a.version, b.version);
    assert_eq!(a.services.len(), b.services.len());
    assert_eq!(a.data_types.len(), b.data_types.len());
    assert_eq!(a.roles.len(), b.roles.len());
    for (x, y) in a.services.iter().zip(b.services.iter()) {
        assert_eq!(x.service_id, y.service_id);
        assert_eq!(x.service_name, y.service_name);
        assert_eq!(x.server_client.len(), y.server_client.len());
    }
    for (x, y) in a.data_types.iter().zip(b.data_types.iter()) {
        assert_eq!(x.name, y.name);
    }
}
