use indexer_core::strmap::StrMap;
use indexer_core::tables::{
    get_foreign_keys, ColumnReading, DbType, Schema, SchemaBuilder, TypeReading,
};

#[test]
fn test_schema_builder_for_basic_postgres_schema_returns_proper_create_sql() {
    let graphql_schema: &str = r#"
        schema {
            query: QueryRoot
        }

        type QueryRoot {
            thing1: Thing1
            thing2: Thing2
        }

        type Thing1 {
            id: ID!
            account: Address!
        }

        type Thing2 {
            id: ID!
            account: Address!
            hash: Bytes32!
        }
    "#;

    let create_schema: &str = "CREATE SCHEMA IF NOT EXISTS test_namespace_index1";
    let create_thing1_schmea: &str = "CREATE TABLE IF NOT EXISTS\n test_namespace_index1.thing1 (\n id numeric(20, 0) primary key not null,\naccount varchar(64) not null,\nobject bytea not null\n)";
    let create_thing2_schema: &str = "CREATE TABLE IF NOT EXISTS\n test_namespace_index1.thing2 (\n id numeric(20, 0) primary key not null,\naccount varchar(64) not null,\nhash varchar(64) not null,\nobject bytea not null\n)";

    let sb = SchemaBuilder::new(
        "test_namespace",
        "index1",
        "a_version_string",
        DbType::Postgres,
    );

    let sb = sb.build(graphql_schema).unwrap();
    let statements = sb.statements;

    assert_eq!(statements[0], create_schema);
    assert_eq!(statements[1], create_thing1_schmea);
    assert_eq!(statements[2], create_thing2_schema);
}

#[test]
fn test_schema_builder_for_basic_postgres_schema_with_optional_types_returns_proper_create_sql() {
    let graphql_schema: &str = r#"
        schema {
            query: QueryRoot
        }

        type QueryRoot {
            thing1: Thing1
            thing2: Thing2
        }

        type Thing1 {
            id: ID!
            account: Address
        }

        type Thing2 {
            id: ID!
            account: Address
            hash: Bytes32
        }
    "#;

    let create_schema: &str = "CREATE SCHEMA IF NOT EXISTS test_namespace_index1";
    let create_thing1_schmea: &str = "CREATE TABLE IF NOT EXISTS\n test_namespace_index1.thing1 (\n id numeric(20, 0) primary key not null,\naccount varchar(64),\nobject bytea not null\n)";
    let create_thing2_schema: &str = "CREATE TABLE IF NOT EXISTS\n test_namespace_index1.thing2 (\n id numeric(20, 0) primary key not null,\naccount varchar(64),\nhash varchar(64),\nobject bytea not null\n)";

    let sb = SchemaBuilder::new(
        "test_namespace",
        "index1",
        "a_version_string",
        DbType::Postgres,
    );

    let sb = sb.build(graphql_schema).unwrap();
    let statements = sb.statements;

    assert_eq!(statements[0], create_schema);
    assert_eq!(statements[1], create_thing1_schmea);
    assert_eq!(statements[2], create_thing2_schema);
}

#[test]
fn test_schema_builder_for_postgres_indices_returns_proper_create_sql() {
    let graphql_schema: &str = r#"
        schema {
            query: QueryRoot
        }

        type QueryRoot {
            thing1: Thing1
            thing2: Thing2
        }

        type Payer {
            id: ID!
            account: Address! @indexed
        }

        type Payee {
            id: ID!
            account: Address!
            hash: Bytes32! @indexed
        }
    "#;

    let sb = SchemaBuilder::new("namespace", "index1", "v1", DbType::Postgres);

    let sb = sb.build(graphql_schema).unwrap();
    let indices = sb.indices;

    assert_eq!(indices.len(), 2);
    assert_eq!(
        indices[0].create_statement(),
        "CREATE INDEX payer_account_idx ON namespace_index1.payer USING btree (account);"
            .to_string()
    );
    assert_eq!(
        indices[1].create_statement(),
        "CREATE INDEX payee_hash_idx ON namespace_index1.payee USING btree (hash);".to_string()
    );
}

#[test]
fn test_schema_builder_for_postgres_foreign_keys_returns_proper_create_sql() {
    let graphql_schema: &str = r#"
        schema {
            query: QueryRoot
        }

        type QueryRoot {
            borrower: Borrower
            lender: Lender
            auditor: Auditor
        }

        type Borrower {
            id: ID!
            account: Address! @indexed
        }

        type Lender {
            id: ID!
            account: Address!
            hash: Bytes32! @indexed
            borrower: Borrower!
        }

        type Auditor {
            id: ID!
            account: Address!
            hash: Bytes32! @indexed
            borrower: Borrower!
        }
    "#;

    let sb = SchemaBuilder::new("namespace", "index1", "v1", DbType::Postgres);

    let sb = sb.build(graphql_schema).unwrap();
    let foreign_keys = sb.foreign_keys;

    assert_eq!(foreign_keys.len(), 2);
    assert_eq!(foreign_keys[0].create_statement(), "ALTER TABLE namespace_index1.lender ADD CONSTRAINT fk_lender_borrower__borrower_id FOREIGN KEY (borrower) REFERENCES namespace_index1.borrower(id) ON DELETE NO ACTION ON UPDATE NO ACTION INITIALLY DEFERRED;".to_string());
    assert_eq!(foreign_keys[1].create_statement(), "ALTER TABLE namespace_index1.auditor ADD CONSTRAINT fk_auditor_borrower__borrower_id FOREIGN KEY (borrower) REFERENCES namespace_index1.borrower(id) ON DELETE NO ACTION ON UPDATE NO ACTION INITIALLY DEFERRED;".to_string());
}

#[test]
fn test_schema_builder_for_postgres_foreign_keys_with_directive_returns_proper_create_sql() {
    let graphql_schema: &str = r#"
        schema {
            query: QueryRoot
        }

        type QueryRoot {
            borrower: Borrower
            lender: Lender
            auditor: Auditor
        }

        type Borrower {
            account: Address! @indexed
        }

        type Lender {
            id: ID!
            borrower: Borrower! @join(on:account)
        }

        type Auditor {
            id: ID!
            account: Address!
            hash: Bytes32! @indexed
            borrower: Borrower! @join(on:account)
        }
    "#;

    let sb = SchemaBuilder::new("namespace", "index1", "v1", DbType::Postgres);

    let sb = sb.build(graphql_schema).unwrap();
    let foreign_keys = sb.foreign_keys;

    assert_eq!(foreign_keys.len(), 2);
    assert_eq!(foreign_keys[0].create_statement(), "ALTER TABLE namespace_index1.lender ADD CONSTRAINT fk_lender_borrower__borrower_account FOREIGN KEY (borrower) REFERENCES namespace_index1.borrower(account) ON DELETE NO ACTION ON UPDATE NO ACTION INITIALLY DEFERRED;".to_string());
    assert_eq!(foreign_keys[1].create_statement(), "ALTER TABLE namespace_index1.auditor ADD CONSTRAINT fk_auditor_borrower__borrower_account FOREIGN KEY (borrower) REFERENCES namespace_index1.borrower(account) ON DELETE NO ACTION ON UPDATE NO ACTION INITIALLY DEFERRED;".to_string());
}

#[test]
fn test_schema_builder_for_postgres_creates_fk_with_proper_column_names() {
    let graphql_schema: &str = r#"
        schema {
            query: QueryRoot
        }

        type QueryRoot {
            account: Account
            message: Message
        }

        type Account {
            id: ID!
            account: Address! @indexed
        }

        type Message {
            id: ID!
            sender: Account!
            receiver: Account!
        }
    "#;

    let sb = SchemaBuilder::new("namespace", "index1", "v1", DbType::Postgres);

    let sb = sb.build(graphql_schema).unwrap();
    let foreign_keys = sb.foreign_keys;

    assert_eq!(foreign_keys.len(), 2);
    assert_eq!(foreign_keys[0].create_statement(), "ALTER TABLE namespace_index1.message ADD CONSTRAINT fk_message_sender__account_id FOREIGN KEY (sender) REFERENCES namespace_index1.account(id) ON DELETE NO ACTION ON UPDATE NO ACTION INITIALLY DEFERRED;".to_string());
    assert_eq!(foreign_keys[1].create_statement(), "ALTER TABLE namespace_index1.message ADD CONSTRAINT fk_message_receiver__account_id FOREIGN KEY (receiver) REFERENCES namespace_index1.account(id) ON DELETE NO ACTION ON UPDATE NO ACTION INITIALLY DEFERRED;".to_string());
}

#[test]
fn test_get_implicit_foreign_keys_for_schema() {
    let implicit_fk_graphql_schema: &str = r#"
        schema {
            query: QueryRoot
        }

        type QueryRoot {
            borrower: Borrower
            lender: Lender
            auditor: Auditor
        }

        type Borrower {
            id: ID!
            account: Address! @indexed
        }

        type Lender {
            id: ID!
            account: Address!
            hash: Bytes32! @indexed
            borrower: Borrower!
        }

        type Auditor {
            id: ID!
            account: Address!
            hash: Bytes32! @indexed
            borrower: Borrower!
        }
    "#;

    let mut expected: StrMap<StrMap<(String, String)>> = StrMap::new();
    let mut lender_fks: StrMap<(String, String)> = StrMap::new();
    lender_fks.insert(
        "borrower".to_string(),
        ("borrower".to_string(), "id".to_string()),
    );
    expected.insert("lender".to_string(), lender_fks);
    let mut auditor_fks: StrMap<(String, String)> = StrMap::new();
    auditor_fks.insert(
        "borrower".to_string(),
        ("borrower".to_string(), "id".to_string()),
    );
    expected.insert("auditor".to_string(), auditor_fks);

    let implicit_fk_foreign_keys = get_foreign_keys(implicit_fk_graphql_schema).unwrap();
    assert_eq!(expected, implicit_fk_foreign_keys);
}

#[test]
fn test_get_explicit_foreign_keys_for_schema() {
    let explicit_fk_graphql_schema: &str = r#"
        schema {
            query: QueryRoot
        }

        type QueryRoot {
            borrower: Borrower
            lender: Lender
            auditor: Auditor
        }

        type Borrower {
            account: Address! @indexed
        }

        type Lender {
            id: ID!
            borrower: Borrower! @join(on:account)
        }

        type Auditor {
            id: ID!
            account: Address!
            hash: Bytes32! @indexed
            borrower: Borrower! @join(on:account)
        }
    "#;

    let mut expected: StrMap<StrMap<(String, String)>> = StrMap::new();
    let mut lender_fks: StrMap<(String, String)> = StrMap::new();
    lender_fks.insert(
        "borrower".to_string(),
        ("borrower".to_string(), "account".to_string()),
    );
    expected.insert("lender".to_string(), lender_fks);
    let mut auditor_fks: StrMap<(String, String)> = StrMap::new();
    auditor_fks.insert(
        "borrower".to_string(),
        ("borrower".to_string(), "account".to_string()),
    );
    expected.insert("auditor".to_string(), auditor_fks);

    let explicit_fk_foreign_keys = get_foreign_keys(explicit_fk_graphql_schema).unwrap();
    assert_eq!(expected, explicit_fk_foreign_keys);
}

#[test]
fn reloaded_reflection_answers_field_lookups() {
    let schema_text = r#"
        schema {
            query: QueryRoot
        }

        type QueryRoot {
            tx: Tx
        }

        type Tx {
            id: ID!
            block: Block!
        }

        type Block {
            id: ID!
        }
    "#;
    let root_columns = vec![ColumnReading {
        column_name: "tx".to_string(),
        graphql_type: "Tx".to_string(),
    }];
    let type_readings = vec![
        TypeReading {
            graphql_name: "Tx".to_string(),
            columns: vec![
                ColumnReading {
                    column_name: "id".to_string(),
                    graphql_type: "ID!".to_string(),
                },
                ColumnReading {
                    column_name: "block".to_string(),
                    graphql_type: "Block".to_string(),
                },
            ],
        },
        TypeReading {
            graphql_name: "Block".to_string(),
            columns: vec![ColumnReading {
                column_name: "id".to_string(),
                graphql_type: "ID!".to_string(),
            }],
        },
    ];
    let schema = Schema::load_from_rows(
        "v1".to_string(),
        "ns".to_string(),
        "idx".to_string(),
        "QueryRoot".to_string(),
        schema_text,
        root_columns,
        type_readings,
    )
    .unwrap();
    assert!(schema.check_type("Tx"));
    assert!(!schema.check_type("Nope"));
    assert_eq!(schema.field_type("Tx", "id"), Some(&"ID!".to_string()));
    // The normalised fallback strips the non-null mark of the context.
    assert_eq!(schema.field_type("Tx!", "id"), Some(&"ID!".to_string()));
    assert_eq!(schema.field_type("Tx", "missing"), None);
    let fks = schema.foreign_keys.get("tx").unwrap();
    assert_eq!(
        fks.get("block"),
        Some(&("block".to_string(), "id".to_string()))
    );
}

#[test]
fn list_fields_are_rejected() {
    let text = r#"
        schema {
            query: QueryRoot
        }

        type QueryRoot {
            thing1: Thing1
        }

        type Thing1 {
            id: ID!
            tags: [Bytes32]
        }
    "#;
    let sb = SchemaBuilder::new("ns", "idx", "v1", DbType::Postgres);
    let r = sb.build(text);
    assert!(matches!(
        r,
        Err(indexer_core::type_graph::SchemaError::ListField(_))
    ));
}

#[test]
fn a_missing_query_root_is_rejected() {
    let text = r#"
        type Thing1 {
            id: ID!
        }
    "#;
    let sb = SchemaBuilder::new("ns", "idx", "v1", DbType::Postgres);
    let r = sb.build(text);
    assert!(matches!(
        r,
        Err(indexer_core::type_graph::SchemaError::MissingQueryRoot)
    ));
}

#[test]
fn an_undefined_query_root_type_is_rejected() {
    let text = r#"
        schema {
            query: QueryRoot
        }
        type Thing1 {
            id: ID!
        }
    "#;
    let sb = SchemaBuilder::new("ns", "idx", "v1", DbType::Postgres);
    let r = sb.build(text);
    assert!(matches!(
        r,
        Err(indexer_core::type_graph::SchemaError::UnresolvedType(n)) if n == "QueryRoot"
    ));
}
