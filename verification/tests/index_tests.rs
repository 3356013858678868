use wren_core::ident::basic_ident_match;
use wren_core::ident::expression_identifiers;
use wren_core::ident::identifier_chain_last;
use wren_core::lineage::topological_order;
use wren_core::lineage::LineageError;
use wren_core::manifest::Column;
use wren_core::manifest::JoinType;
use wren_core::manifest::Manifest;
use wren_core::manifest::Model;
use wren_core::manifest::Relationship;
use wren_core::transform::function_type_from_str;
use wren_core::transform::remove_occurrences;
use wren_core::transform::FunctionType;
use wren_core::AnalyzedWrenMDL;
use wren_core::ColumnReference;
use wren_core::Dataset;
use wren_core::QualifiedName;
use wren_core::WrenDialect;
use wren_core::WrenMDL;

fn column(name: &str, typ: &str) -> Column {
    Column {
        name: name.to_string(),
        column_type: typ.to_string(),
        relationship: None,
        is_calculated: false,
        not_null: false,
        expression: None,
        properties: Vec::new(),
    }
}

fn expr_column(name: &str, typ: &str, expression: &str, calculated: bool) -> Column {
    Column {
        name: name.to_string(),
        column_type: typ.to_string(),
        relationship: None,
        is_calculated: calculated,
        not_null: false,
        expression: Some(expression.to_string()),
        properties: Vec::new(),
    }
}

fn model(name: &str, table_reference: &str, columns: Vec<Column>) -> Model {
    Model {
        name: name.to_string(),
        ref_sql: None,
        base_object: None,
        table_reference: Some(table_reference.to_string()),
        columns,
        primary_key: None,
        cached: false,
        refresh_time: None,
        properties: Vec::new(),
    }
}

fn manifest(catalog: &str, schema: &str, models: Vec<Model>) -> Manifest {
    Manifest {
        catalog: catalog.to_string(),
        schema: schema.to_string(),
        models,
        relationships: Vec::new(),
        metrics: Vec::new(),
        views: Vec::new(),
    }
}

#[test]
fn dialect_keeps_lower_case_identifiers_bare() {
    let d = WrenDialect {};
    assert_eq!(d.identifier_quote_style("o_orderkey"), None);
    assert_eq!(d.identifier_quote_style("_x1"), None);
    assert_eq!(d.identifier_quote_style("customer"), None);
}

#[test]
fn dialect_quotes_case_keywords_and_special_characters() {
    let d = WrenDialect {};
    // upper case must be preserved through quoting
    assert_eq!(d.identifier_quote_style("Custkey"), Some('"'));
    assert_eq!(d.identifier_quote_style("CTest"), Some('"'));
    // keyword collision, in either spelling
    assert_eq!(d.identifier_quote_style("select"), Some('"'));
    assert_eq!(d.identifier_quote_style("SELECT"), Some('"'));
    assert_eq!(d.identifier_quote_style("group"), Some('"'));
    // not a plain identifier
    assert_eq!(d.identifier_quote_style("名字"), Some('"'));
    assert_eq!(d.identifier_quote_style("a b"), Some('"'));
    assert_eq!(d.identifier_quote_style("1abc"), Some('"'));
    assert_eq!(d.identifier_quote_style(""), Some('"'));
}

#[test]
fn basic_ident_pattern() {
    assert!(basic_ident_match("abc_123"));
    assert!(basic_ident_match("_abc"));
    assert!(basic_ident_match("ABC"));
    assert!(!basic_ident_match("1abc"));
    assert!(!basic_ident_match(""));
    assert!(!basic_ident_match("名字"));
}

#[test]
fn identifier_chains() {
    assert_eq!(identifier_chain_last("a").as_deref(), Some("a"));
    assert_eq!(identifier_chain_last("\"a\".\"b\".\"c\"").as_deref(), Some("c"));
    assert_eq!(identifier_chain_last("\"名字\"").as_deref(), Some("名字"));
    assert_eq!(identifier_chain_last("a.b").as_deref(), Some("b"));
    assert_eq!(identifier_chain_last("\"a\"\"b\"").as_deref(), Some("a\"b"));
    assert_eq!(identifier_chain_last("\"名字\" || \"名字\""), None);
    assert_eq!(identifier_chain_last("lower(\"名字\")"), None);
    assert_eq!(identifier_chain_last("\"訂閱數\" + 1"), None);
    assert_eq!(identifier_chain_last(""), None);
}

#[test]
fn expression_identifier_tokens() {
    assert_eq!(
        expression_identifiers("\"名字\" || \"名字\""),
        vec!["名字".to_string(), "名字".to_string()]
    );
    assert_eq!(
        expression_identifiers("lower(\"名字\")"),
        vec!["lower".to_string(), "名字".to_string()]
    );
    // single-quoted string literals are opaque
    assert_eq!(
        expression_identifiers("concat(name, 'abc def')"),
        vec!["concat".to_string(), "name".to_string()]
    );
    assert_eq!(expression_identifiers("1 + 2"), Vec::<String>::new());
}

#[test]
fn infer_source_column_cases() {
    // a plain column passes through under its own name
    let c = column("o_orderkey", "int");
    let f = WrenMDL::infer_source_column(&c).unwrap();
    assert_eq!(f.name, "o_orderkey");
    assert_eq!(f.field_type, "int");

    // an identifier-chain expression contributes its final identifier
    let c = expr_column("subscribe", "int", "\"訂閱數\"", false);
    let f = WrenMDL::infer_source_column(&c).unwrap();
    assert_eq!(f.name, "訂閱數");

    let c = expr_column("city", "string", "\"a\".\"b\".\"c\"", false);
    assert_eq!(WrenMDL::infer_source_column(&c).unwrap().name, "c");

    // anything else cannot be inferred
    let c = expr_column("name_append", "string", "\"名字\" || \"名字\"", false);
    assert!(WrenMDL::infer_source_column(&c).is_none());
    let c = expr_column("lower_name", "string", "lower(\"名字\")", false);
    assert!(WrenMDL::infer_source_column(&c).is_none());

    // calculated and relationship-bearing columns contribute nothing
    let c = expr_column("total", "int", "\"a\" + \"b\"", true);
    assert!(WrenMDL::infer_source_column(&c).is_none());
    let mut c = column("customer", "Customer");
    c.relationship = Some("CustomerOrders".to_string());
    assert!(WrenMDL::infer_source_column(&c).is_none());
}

#[test]
fn index_resolves_qualified_names() {
    let m = manifest(
        "CTest",
        "STest",
        vec![model(
            "Customer",
            "datafusion.public.customer",
            vec![column("Custkey", "int"), column("Name", "string")],
        )],
    );
    let mdl = WrenMDL::new(m);
    assert_eq!(mdl.catalog(), "CTest");
    assert_eq!(mdl.schema(), "STest");
    assert_eq!(mdl.catalog_schema_prefix(), "CTest.STest.");

    let hit = mdl
        .get_column_reference(&QualifiedName::new("CTest", "STest", "Customer", "Custkey"))
        .unwrap();
    assert_eq!(hit.column.name, "Custkey");
    assert_eq!(hit.get_qualified_name(), "Customer.Custkey");
    match &hit.dataset {
        Dataset::Model(m) => assert_eq!(m.name, "Customer"),
        other => panic!("unexpected dataset: {:?}", other),
    }

    // exact match only: the lookup is case-sensitive and four-part
    assert!(mdl
        .get_column_reference(&QualifiedName::new("CTest", "STest", "Customer", "custkey"))
        .is_none());
    assert!(mdl
        .get_column_reference(&QualifiedName::new("other", "STest", "Customer", "Custkey"))
        .is_none());

    assert!(mdl.get_model("Customer").is_some());
    assert!(mdl.get_model("nobody").is_none());
}

#[test]
fn qualified_names_of_distinct_columns_stay_distinct() {
    // two models sharing a column name never collide in the index
    let m = manifest(
        "test",
        "test",
        vec![
            model("orders", "orders", vec![column("key", "int")]),
            model("customer", "customer", vec![column("key", "int")]),
        ],
    );
    let mdl = WrenMDL::new(m);
    let o = mdl
        .get_column_reference(&QualifiedName::new("test", "test", "orders", "key"))
        .unwrap();
    let c = mdl
        .get_column_reference(&QualifiedName::new("test", "test", "customer", "key"))
        .unwrap();
    assert_eq!(o.get_qualified_name(), "orders.key");
    assert_eq!(c.get_qualified_name(), "customer.key");
}

#[test]
fn infer_and_register_remote_table_registers_quoted_paths() {
    let m = manifest(
        "wren",
        "test",
        vec![model(
            "artist",
            "artist",
            vec![
                column("名字", "string"),
                expr_column("subscribe", "int", "\"訂閱數\"", false),
                expr_column("name_append", "string", "\"名字\" || \"名字\"", false),
            ],
        )],
    );
    let mdl = WrenMDL::infer_and_register_remote_table(m);
    let ds = mdl.get_table("artist").unwrap();
    let names: Vec<&str> = ds.fields.iter().map(|f| f.name.as_str()).collect();
    // the un-inferable expression contributes no field
    assert_eq!(names, vec!["名字", "訂閱數"]);

    // an unquoted path is normalized by the engine before registration
    let m2 = manifest(
        "CTest",
        "STest",
        vec![model("Customer", "MyCatalog.Public.Customer", vec![column("Custkey", "int")])],
    );
    let mdl2 = WrenMDL::infer_and_register_remote_table(m2);
    assert!(mdl2.get_table("mycatalog.public.customer").is_some());
    assert!(mdl2.get_table("MyCatalog.Public.Customer").is_none());
}

#[test]
fn topological_order_witnesses_acyclicity() {
    // 0 depends on 1, 1 depends on 2
    let deps: Vec<Vec<usize>> = vec![vec![1], vec![2], vec![]];
    let order = topological_order(&deps).unwrap();
    assert_eq!(order, vec![2, 1, 0]);

    // a two-node cycle is caught
    let deps: Vec<Vec<usize>> = vec![vec![1], vec![0], vec![]];
    let rem = topological_order(&deps).unwrap_err();
    assert_eq!(rem, vec![0, 1]);
}

#[test]
fn lineage_follows_relationship_conditions() {
    let mut customer_ref = column("customer_name", "string");
    customer_ref.relationship = Some("CustomerOrders".to_string());
    let m = Manifest {
        catalog: "test".to_string(),
        schema: "test".to_string(),
        models: vec![
            model(
                "orders",
                "orders",
                vec![column("o_orderkey", "int"), column("o_custkey", "int"), customer_ref],
            ),
            model(
                "customer",
                "customer",
                vec![column("c_custkey", "int"), column("c_name", "string")],
            ),
        ],
        relationships: vec![Relationship {
            name: "CustomerOrders".to_string(),
            models: vec!["orders".to_string(), "customer".to_string()],
            join_type: JoinType::ManyToOne,
            condition: "orders.o_custkey = customer.c_custkey".to_string(),
            properties: Vec::new(),
        }],
        metrics: Vec::new(),
        views: Vec::new(),
    };
    let analyzed = AnalyzedWrenMDL::analyze(m).unwrap();
    let lineage = analyzed.lineage();
    // entry 2 is the relationship-bearing column: it depends on both sides
    // of the join condition (entries 1 and 3)
    assert_eq!(lineage.deps[2], vec![1, 3]);
    assert!(lineage.deps[0].is_empty());
    let mdl = analyzed.wren_mdl();
    assert!(mdl.get_relationship("CustomerOrders").is_some());
    assert!(mdl.get_relationship("nothing").is_none());
}

#[test]
fn cyclic_calculated_columns_are_rejected() {
    let m = manifest(
        "test",
        "test",
        vec![model(
            "orders",
            "orders",
            vec![
                expr_column("a", "int", "\"b\" + 1", true),
                expr_column("b", "int", "\"a\" + 1", true),
            ],
        )],
    );
    match AnalyzedWrenMDL::analyze(m) {
        Err(LineageError::Cycle(names)) => {
            assert_eq!(names, vec!["orders.a".to_string(), "orders.b".to_string()]);
        },
        other => panic!("expected a cycle, got {:?}", other),
    }
}

#[test]
fn self_referential_column_is_a_cycle() {
    let m = manifest(
        "test",
        "test",
        vec![model("orders", "orders", vec![expr_column("a", "int", "\"a\" + 1", true)])],
    );
    assert!(matches!(AnalyzedWrenMDL::analyze(m), Err(LineageError::Cycle(_))));
}

#[test]
fn unknown_relationship_is_unresolved() {
    let mut c = column("customer_name", "string");
    c.relationship = Some("Missing".to_string());
    let m = manifest("test", "test", vec![model("orders", "orders", vec![c])]);
    match AnalyzedWrenMDL::analyze(m) {
        Err(LineageError::UnresolvedReference(n)) => assert_eq!(n, "Missing"),
        other => panic!("expected unresolved reference, got {:?}", other),
    }
}

#[test]
fn acyclic_calculated_chain_is_accepted() {
    let m = manifest(
        "test",
        "test",
        vec![model(
            "orders",
            "orders",
            vec![
                column("o_totalprice", "int"),
                expr_column("double_price", "int", "\"o_totalprice\" + \"o_totalprice\"", true),
                expr_column("quad_price", "int", "\"double_price\" + \"double_price\"", true),
            ],
        )],
    );
    let analyzed = AnalyzedWrenMDL::analyze(m).unwrap();
    let lineage = analyzed.lineage();
    assert_eq!(lineage.deps[1], vec![0, 0]);
    assert_eq!(lineage.deps[2], vec![1, 1]);
    assert_eq!(lineage.order, vec![0, 1, 2]);
    // the transitive requirements of quad_price reach through double_price
    // down to the physical column
    assert_eq!(lineage.required[2], vec![true, true, false]);
    assert_eq!(lineage.required[1], vec![true, false, false]);
    assert_eq!(lineage.required[0], vec![false, false, false]);
}

#[test]
fn prefix_is_stripped_from_regenerated_sql() {
    let sql = "SELECT o_orderkey + o_orderkey FROM test.test.orders";
    assert_eq!(
        remove_occurrences(sql, "test.test."),
        "SELECT o_orderkey + o_orderkey FROM orders"
    );
    assert_eq!(remove_occurrences("aaa", "aa"), "a");
    assert_eq!(remove_occurrences("abc", "xyz"), "abc");
    assert_eq!(remove_occurrences("test.test.a, test.test.b", "test.test."), "a, b");
}

#[test]
fn function_types_read_from_registry_rows() {
    assert_eq!(function_type_from_str("scalar"), Some(FunctionType::Scalar));
    assert_eq!(function_type_from_str("aggregate"), Some(FunctionType::Aggregate));
    assert_eq!(function_type_from_str("window"), Some(FunctionType::Window));
    assert_eq!(function_type_from_str("table"), None);
}

#[test]
fn column_reference_constructor_keeps_its_parts() {
    let c = column("c_name", "string");
    let m = model("customer", "customer", vec![c.clone()]);
    let cr = ColumnReference::new(Dataset::Model(m), c);
    assert_eq!(cr.get_qualified_name(), "customer.c_name");
}

#[test]
fn analyze_with_tables_keeps_given_sources() {
    let m = manifest("test", "test", vec![model("orders", "orders", vec![column("k", "int")])]);
    let sources = vec![(
        "orders".to_string(),
        wren_core::DataSource {
            fields: vec![wren_core::SourceField {
                name: "k".to_string(),
                field_type: "int".to_string(),
                not_null: false,
            }],
        },
    )];
    let analyzed = AnalyzedWrenMDL::analyze_with_tables(m, sources).unwrap();
    let mdl = analyzed.wren_mdl();
    assert!(mdl.get_table("orders").is_some());
    assert_eq!(mdl.get_register_tables().len(), 1);
    assert_eq!(mdl.models().len(), 1);
}

#[test]
fn repeated_qualified_name_resolves_to_the_last_entry() {
    // the same (dataset, column) pair twice: the entry registered last wins,
    // as repeated insertion into a map would have it
    let m = manifest(
        "test",
        "test",
        vec![model(
            "orders",
            "orders",
            vec![column("key", "int"), column("key", "string")],
        )],
    );
    let mdl = WrenMDL::new(m);
    let hit = mdl
        .get_column_reference(&QualifiedName::new("test", "test", "orders", "key"))
        .unwrap();
    assert_eq!(hit.column.column_type, "string");
}

#[test]
fn default_analyzed_model_is_empty_and_well_formed() {
    let a = AnalyzedWrenMDL::default();
    assert_eq!(a.wren_mdl().models().len(), 0);
    assert!(a.lineage().deps.is_empty());
}
