use indexer_core::graphql::GraphqlQueryBuilder;
use indexer_core::queries::QueryElement;
use indexer_core::strmap::StrMap;
use indexer_core::tables::Schema;
use indexer_core::graphql::{Fragment, Selection, Selections};
use indexer_core::tables::DbType;

fn tx_schema() -> Schema {
    let mut fields: StrMap<StrMap<String>> = StrMap::new();
    let mut query_root_fields: StrMap<String> = StrMap::new();
    query_root_fields.insert("tx".to_string(), "Tx".to_string());
    fields.insert("QueryRoot".to_string(), query_root_fields);
    let mut tx_fields: StrMap<String> = StrMap::new();
    tx_fields.insert("id".to_string(), "ID!".to_string());
    tx_fields.insert("timestamp".to_string(), "Int8!".to_string());
    fields.insert("Tx".to_string(), tx_fields);
    Schema {
        version: "v1".to_string(),
        namespace: "ns".to_string(),
        identifier: "idx".to_string(),
        query: "QueryRoot".to_string(),
        types: vec!["QueryRoot".to_string(), "Tx".to_string()],
        fields,
        foreign_keys: StrMap::new(),
    }
}

#[test]
fn fragment_spread_resolves_into_fields() {
    let schema = tx_schema();
    let text = "fragment F on Tx { id } { tx { ...F timestamp } }";
    let builder = GraphqlQueryBuilder::new(&schema, text).unwrap();
    let query = builder.build().unwrap();
    let compiled = query.parse(&schema);
    assert_eq!(compiled.len(), 1);
    let expected = vec![
        QueryElement::Field {
            key: "id".to_string(),
            value: "ns_idx.tx.id".to_string(),
        },
        QueryElement::Field {
            key: "timestamp".to_string(),
            value: "ns_idx.tx.timestamp".to_string(),
        },
    ];
    assert_eq!(compiled[0].elements, expected);
}

#[test]
fn cyclic_fragments_fail_resolution() {
    let schema = tx_schema();
    let text = "fragment A on Tx { ...B } fragment B on Tx { ...A }";
    let builder = GraphqlQueryBuilder::new(&schema, text).unwrap();
    let r = builder.build();
    assert!(matches!(
        r,
        Err(indexer_core::graphql::GraphqlError::FragmentResolverFailed)
    ));
}

#[test]
fn fragment_on_wrong_type_is_invalid() {
    let schema = tx_schema();
    let text = "fragment F on QueryRoot { tx } { tx { ...F } }";
    let builder = GraphqlQueryBuilder::new(&schema, text).unwrap();
    let r = builder.build();
    assert!(matches!(
        r,
        Err(indexer_core::graphql::GraphqlError::InvalidFragmentSelection(_, _))
    ));
}

#[test]
fn alias_becomes_the_emitted_key() {
    let schema = tx_schema();
    let text = "{ tx { txid: id } }";
    let builder = GraphqlQueryBuilder::new(&schema, text).unwrap();
    let query = builder.build().unwrap();
    let compiled = query.parse(&schema);
    assert_eq!(
        compiled[0].elements,
        vec![QueryElement::Field {
            key: "txid".to_string(),
            value: "ns_idx.tx.id".to_string(),
        }]
    );
}

#[test]
fn mutations_are_not_supported() {
    let schema = tx_schema();
    let text = "mutation { tx { id } }";
    let builder = GraphqlQueryBuilder::new(&schema, text).unwrap();
    let r = builder.build();
    assert!(matches!(
        r,
        Err(indexer_core::graphql::GraphqlError::OperationNotSupported(_))
    ));
}

#[test]
fn unknown_fields_are_refused() {
    let schema = tx_schema();
    let text = "{ tx { missing } }";
    let builder = GraphqlQueryBuilder::new(&schema, text).unwrap();
    let r = builder.build();
    assert!(matches!(
        r,
        Err(indexer_core::graphql::GraphqlError::UnrecognizedField(_, _))
    ));
}

#[test]
fn resolving_twice_is_a_no_op() {
    let schema = tx_schema();
    let mut fragments: StrMap<Fragment> = StrMap::new();
    fragments.insert(
        "F".to_string(),
        Fragment {
            cond: "Tx".to_string(),
            selections: Selections {
                field_type: "Tx".to_string(),
                has_fragments: false,
                selections: vec![Selection::Field(
                    "id".to_string(),
                    Vec::new(),
                    Selections {
                        field_type: "ID!".to_string(),
                        has_fragments: false,
                        selections: Vec::new(),
                    },
                    None,
                )],
            },
        },
    );
    let mut sels = Selections {
        field_type: "Tx".to_string(),
        has_fragments: true,
        selections: vec![Selection::Fragment("F".to_string())],
    };
    let n = sels.resolve_fragments(&schema, "Tx", &fragments).unwrap();
    assert_eq!(n, 1);
    assert!(!sels.has_fragments);
    let once = sels.get_selections();
    let n2 = sels.resolve_fragments(&schema, "Tx", &fragments).unwrap();
    assert_eq!(n2, 0);
    assert!(!sels.has_fragments);
    assert_eq!(sels.get_selections(), once);
}

#[test]
fn argument_pipeline_reaches_the_renderer() {
    let schema = tx_schema();
    let unordered = "{ tx(first: 10) { id } }";
    let b = GraphqlQueryBuilder::new(&schema, unordered).unwrap();
    let q = b.build().unwrap();
    assert!(matches!(
        q.as_sql(&schema, DbType::Postgres),
        Err(indexer_core::graphql::GraphqlError::UnorderedPaginatedQuery)
    ));

    let ordered = "{ tx(order: { id: asc }, first: 10) { id } }";
    let b2 = GraphqlQueryBuilder::new(&schema, ordered).unwrap();
    let q2 = b2.build().unwrap();
    let sql = q2.as_sql(&schema, DbType::Postgres).unwrap();
    assert_eq!(
        sql,
        vec![
            "SELECT json_build_object('id', ns_idx.tx.id) FROM ns_idx.tx ORDER BY ns_idx.tx.id ASC LIMIT 10"
                .to_string()
        ]
    );

    let filtered = "{ tx(filter: { eq: { id: 5 } }) { id } }";
    let b3 = GraphqlQueryBuilder::new(&schema, filtered).unwrap();
    let q3 = b3.build().unwrap();
    let sql3 = q3.as_sql(&schema, DbType::Postgres).unwrap();
    assert_eq!(
        sql3,
        vec![
            "SELECT json_build_object('id', ns_idx.tx.id) FROM ns_idx.tx WHERE ns_idx.tx.id = 5"
                .to_string()
        ]
    );
}
