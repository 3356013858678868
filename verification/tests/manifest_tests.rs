use wren_core::codec::bool_from_json;
use wren_core::codec::join_table_reference;
use wren_core::codec::join_type_from_str;
use wren_core::codec::join_type_name;
use wren_core::codec::join_type_to_str;
use wren_core::codec::split_table_reference;
use wren_core::codec::JsonBool;
use wren_core::codec::ManifestError;
use wren_core::codec::TableReferenceParts;
use wren_core::manifest::Column;
use wren_core::manifest::JoinType;
use wren_core::manifest::Model;

fn column(name: &str, typ: &str) -> Column {
    Column {
        name: name.to_string(),
        column_type: typ.to_string(),
        relationship: None,
        is_calculated: false,
        not_null: false,
        expression: None,
        properties: Vec::new(),
    }
}

#[test]
fn join_type_is_to_one_exactly_for_one_to_one_and_many_to_one() {
    assert!(JoinType::OneToOne.is_to_one());
    assert!(JoinType::ManyToOne.is_to_one());
    assert!(!JoinType::OneToMany.is_to_one());
    assert!(!JoinType::ManyToMany.is_to_one());
}

#[test]
fn join_type_spellings_round_trip() {
    for jt in [
        JoinType::OneToOne,
        JoinType::OneToMany,
        JoinType::ManyToOne,
        JoinType::ManyToMany,
    ] {
        assert_eq!(join_type_from_str(join_type_to_str(jt)), Some(jt));
        assert_eq!(join_type_from_str(join_type_name(jt)), Some(jt));
    }
    assert_eq!(join_type_from_str("ONE_TO_MANY"), Some(JoinType::OneToMany));
    assert_eq!(join_type_from_str("many_to_one"), Some(JoinType::ManyToOne));
    assert_eq!(join_type_from_str("sideways"), None);
    assert_eq!(join_type_to_str(JoinType::ManyToMany), "MANY_TO_MANY");
    assert_eq!(join_type_name(JoinType::OneToOne), "one_to_one");
}

#[test]
fn legacy_bool_zero_is_false_nonzero_is_true() {
    assert_eq!(bool_from_json(&JsonBool::Integer(0)).unwrap(), false);
    assert_eq!(bool_from_json(&JsonBool::Integer(1)).unwrap(), true);
    assert_eq!(bool_from_json(&JsonBool::Integer(42)).unwrap(), true);
    assert_eq!(bool_from_json(&JsonBool::Bool(true)).unwrap(), true);
    assert_eq!(bool_from_json(&JsonBool::Bool(false)).unwrap(), false);
    assert!(bool_from_json(&JsonBool::Other).is_err());
}

fn json_bool_of(text: &str) -> JsonBool {
    let v: serde_json::Value = serde_json::from_str(text).unwrap();
    match v {
        serde_json::Value::Bool(b) => JsonBool::Bool(b),
        serde_json::Value::Number(n) if n.is_u64() => JsonBool::Integer(n.as_u64().unwrap()),
        _ => JsonBool::Other,
    }
}

#[test]
fn legacy_bool_from_json_document() {
    // what a legacy document carries, read through serde_json
    assert_eq!(bool_from_json(&json_bool_of("0")).unwrap(), false);
    assert_eq!(bool_from_json(&json_bool_of("7")).unwrap(), true);
    assert_eq!(bool_from_json(&json_bool_of("true")).unwrap(), true);
    assert_eq!(bool_from_json(&json_bool_of("false")).unwrap(), false);
    assert!(bool_from_json(&json_bool_of("\"yes\"")).is_err());
    assert!(bool_from_json(&json_bool_of("-3")).is_err());
    assert!(bool_from_json(&json_bool_of("1.5")).is_err());
}

#[test]
fn table_reference_round_trips() {
    for s in ["orders", "main.orders", "catalog.main.orders", "a.b.c"] {
        let parts = split_table_reference(s).unwrap();
        assert_eq!(join_table_reference(&parts).as_deref(), Some(s));
    }
}

#[test]
fn table_reference_with_more_than_three_segments_is_rejected() {
    let err = split_table_reference("a.b.c.d").unwrap_err();
    match &err {
        ManifestError::InvalidTableReference(t) => assert_eq!(t, "a.b.c.d"),
        other => panic!("unexpected error: {:?}", other),
    }
    assert_eq!(err.message(), "Invalid table reference: a.b.c.d");
}

#[test]
fn table_reference_split_drops_empty_segments() {
    let parts = split_table_reference("a..b").unwrap();
    assert_eq!(parts.catalog, None);
    assert_eq!(parts.schema.as_deref(), Some("a"));
    assert_eq!(parts.table.as_deref(), Some("b"));

    let parts = split_table_reference("").unwrap();
    assert_eq!(parts.catalog, None);
    assert_eq!(parts.schema, None);
    assert_eq!(parts.table, None);
    assert_eq!(join_table_reference(&parts), None);
}

#[test]
fn table_reference_join_skips_empty_fields() {
    let parts = TableReferenceParts {
        catalog: Some(String::new()),
        schema: Some("main".to_string()),
        table: Some("orders".to_string()),
    };
    assert_eq!(join_table_reference(&parts).as_deref(), Some("main.orders"));
}

fn sample_manifest() -> wren_core::manifest::Manifest {
    wren_core::manifest::Manifest {
        catalog: "test".to_string(),
        schema: "test".to_string(),
        models: vec![Model {
            name: "orders".to_string(),
            ref_sql: None,
            base_object: None,
            table_reference: Some("orders".to_string()),
            columns: vec![column("o_orderkey", "int")],
            primary_key: Some("o_orderkey".to_string()),
            cached: false,
            refresh_time: None,
            properties: Vec::new(),
        }],
        relationships: Vec::new(),
        metrics: Vec::new(),
        views: Vec::new(),
    }
}

#[test]
fn manifest_identity_is_structural() {
    assert_eq!(sample_manifest(), sample_manifest());
    let mut other = sample_manifest();
    other.schema = "elsewhere".to_string();
    assert_ne!(sample_manifest(), other);
}

#[test]
fn model_table_reference_defaults_to_empty() {
    let mut m = Model {
        name: "orders".to_string(),
        ref_sql: None,
        base_object: None,
        table_reference: None,
        columns: vec![column("o_orderkey", "int")],
        primary_key: None,
        cached: false,
        refresh_time: None,
        properties: Vec::new(),
    };
    assert_eq!(m.table_reference(), "");
    m.table_reference = Some("main.orders".to_string());
    assert_eq!(m.table_reference(), "main.orders");
}
