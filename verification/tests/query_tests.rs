use indexer_core::arguments::QueryParams;
use indexer_core::graphql::{Operation, Selection, Selections};
use indexer_core::queries::{JoinCondition, QueryElement, QueryJoinNode};
use indexer_core::strmap::StrMap;
use indexer_core::tables::Schema;

#[test]
fn test_operation_parse_into_user_query() {
    let selections_on_block_field = Selections {
        field_type: "Block".to_string(),
        has_fragments: false,
        selections: vec![
            Selection::Field(
                "id".to_string(),
                Vec::new(),
                Selections {
                    field_type: "ID!".to_string(),
                    has_fragments: false,
                    selections: Vec::new(),
                },
                None,
            ),
            Selection::Field(
                "height".to_string(),
                Vec::new(),
                Selections {
                    field_type: "UInt8!".to_string(),
                    has_fragments: false,
                    selections: Vec::new(),
                },
                None,
            ),
        ],
    };

    let selections_on_tx_field = Selections {
        field_type: "Tx".to_string(),
        has_fragments: false,
        selections: vec![
            Selection::Field(
                "block".to_string(),
                Vec::new(),
                selections_on_block_field,
                None,
            ),
            Selection::Field(
                "id".to_string(),
                Vec::new(),
                Selections {
                    field_type: "ID!".to_string(),
                    has_fragments: false,
                    selections: Vec::new(),
                },
                None,
            ),
            Selection::Field(
                "timestamp".to_string(),
                Vec::new(),
                Selections {
                    field_type: "Int8!".to_string(),
                    has_fragments: false,
                    selections: Vec::new(),
                },
                None,
            ),
        ],
    };

    let query_selections = vec![Selection::Field(
        "tx".to_string(),
        Vec::new(),
        selections_on_tx_field,
        None,
    )];

    let operation = Operation {
        name: "".to_string(),
        namespace: "fuel_indexer_test".to_string(),
        identifier: "test_index".to_string(),
        selections: Selections {
            field_type: "QueryRoot".to_string(),
            has_fragments: false,
            selections: query_selections,
        },
    };

    let mut fields: StrMap<StrMap<String>> = StrMap::new();
    let mut query_root_fields: StrMap<String> = StrMap::new();
    query_root_fields.insert("tx".to_string(), "Tx".to_string());
    query_root_fields.insert("block".to_string(), "Block".to_string());
    fields.insert("QueryRoot".to_string(), query_root_fields);
    let mut tx_fields: StrMap<String> = StrMap::new();
    tx_fields.insert("timestamp".to_string(), "Int8!".to_string());
    tx_fields.insert("input_data".to_string(), "Json!".to_string());
    tx_fields.insert("id".to_string(), "ID!".to_string());
    tx_fields.insert("object".to_string(), "__".to_string());
    tx_fields.insert("block".to_string(), "Block".to_string());
    fields.insert("Tx".to_string(), tx_fields);
    let mut block_fields: StrMap<String> = StrMap::new();
    block_fields.insert("id".to_string(), "ID!".to_string());
    block_fields.insert("height".to_string(), "UInt8!".to_string());
    block_fields.insert("object".to_string(), "__".to_string());
    block_fields.insert("timestamp".to_string(), "Int8!".to_string());
    fields.insert("Block".to_string(), block_fields);

    let mut foreign_keys: StrMap<StrMap<(String, String)>> = StrMap::new();
    let mut tx_fks: StrMap<(String, String)> = StrMap::new();
    tx_fks.insert(
        "block".to_string(),
        ("block".to_string(), "id".to_string()),
    );
    foreign_keys.insert("tx".to_string(), tx_fks);

    let schema = Schema {
        version: "test_version".to_string(),
        namespace: "fuel_indexer_test".to_string(),
        identifier: "test_index".to_string(),
        query: "QueryRoot".to_string(),
        types: vec![
            "Tx".to_string(),
            "Block".to_string(),
            "QueryRoot".to_string(),
        ],
        fields,
        foreign_keys,
    };

    let join_condition = JoinCondition {
        referencing_key_table: "fuel_indexer_test_test_index.tx".to_string(),
        referencing_key_col: "block".to_string(),
        primary_key_table: "fuel_indexer_test_test_index.block".to_string(),
        primary_key_col: "id".to_string(),
    };
    let mut tx_deps: StrMap<JoinCondition> = StrMap::new();
    tx_deps.insert(
        "fuel_indexer_test_test_index.block".to_string(),
        join_condition.clone(),
    );
    let mut block_dependents: StrMap<JoinCondition> = StrMap::new();
    block_dependents.insert(
        "fuel_indexer_test_test_index.tx".to_string(),
        join_condition,
    );
    let mut joins: StrMap<QueryJoinNode> = StrMap::new();
    joins.insert(
        "fuel_indexer_test_test_index.tx".to_string(),
        QueryJoinNode {
            dependencies: tx_deps,
            dependents: StrMap::new(),
        },
    );
    joins.insert(
        "fuel_indexer_test_test_index.block".to_string(),
        QueryJoinNode {
            dependencies: StrMap::new(),
            dependents: block_dependents,
        },
    );

    let expected = vec![indexer_core::queries::UserQuery {
        elements: vec![
            QueryElement::ObjectOpeningBoundary {
                key: "block".to_string(),
            },
            QueryElement::Field {
                key: "height".to_string(),
                value: "fuel_indexer_test_test_index.block.height".to_string(),
            },
            QueryElement::Field {
                key: "id".to_string(),
                value: "fuel_indexer_test_test_index.block.id".to_string(),
            },
            QueryElement::ObjectClosingBoundary,
            QueryElement::Field {
                key: "id".to_string(),
                value: "fuel_indexer_test_test_index.tx.id".to_string(),
            },
            QueryElement::Field {
                key: "timestamp".to_string(),
                value: "fuel_indexer_test_test_index.tx.timestamp".to_string(),
            },
        ],
        joins,
        namespace_identifier: "fuel_indexer_test_test_index".to_string(),
        entity_name: "tx".to_string(),
        query_params: QueryParams::default(),
        alias: None,
    }];
    assert_eq!(expected, operation.parse(&schema));
}
