use indexer_core::arguments::{ParamType, QueryParams};
use indexer_core::queries::UserQuery;
use indexer_core::strmap::StrMap;
use indexer_core::tables::DbType;

fn plain_query(params: Vec<ParamType>) -> UserQuery {
    let mut query_params = QueryParams::default();
    query_params.add_params(params, "ns_idx.tx".to_string());
    UserQuery {
        elements: vec![indexer_core::queries::QueryElement::Field {
            key: "id".to_string(),
            value: "ns_idx.tx.id".to_string(),
        }],
        joins: StrMap::new(),
        namespace_identifier: "ns_idx".to_string(),
        entity_name: "tx".to_string(),
        query_params,
        alias: None,
    }
}

#[test]
fn pagination_without_order_is_refused() {
    let q = plain_query(vec![ParamType::First(10)]);
    let r = q.to_sql(&DbType::Postgres);
    assert!(matches!(
        r,
        Err(indexer_core::graphql::GraphqlError::UnorderedPaginatedQuery)
    ));
}

#[test]
fn pagination_with_order_renders() {
    let q = plain_query(vec![
        ParamType::Sort {
            field: "id".to_string(),
            descending: false,
        },
        ParamType::First(10),
    ]);
    let sql = q.to_sql(&DbType::Postgres).unwrap();
    assert_eq!(
        sql,
        "SELECT json_build_object('id', ns_idx.tx.id) FROM ns_idx.tx ORDER BY ns_idx.tx.id ASC LIMIT 10"
    );
}

#[test]
fn id_shorthand_renders_an_equality() {
    let q = plain_query(vec![ParamType::IdEq(7)]);
    let sql = q.to_sql(&DbType::Postgres).unwrap();
    assert_eq!(
        sql,
        "SELECT json_build_object('id', ns_idx.tx.id) FROM ns_idx.tx WHERE ns_idx.tx.id = 7"
    );
}
