use indexer_core::tables::{DbType, SchemaBuilder};
use indexer_core::templates::{
    default_cargo_config, default_index_cargo_toml, default_index_lib, default_index_manifest,
    default_index_schema, default_native_index_cargo_toml, manifest_name,
};

#[test]
fn manifest_names_carry_the_index_name() {
    assert_eq!(manifest_name("hello_index"), "hello_index.manifest.yaml");
}

#[test]
fn cargo_config_targets_wasm() {
    assert_eq!(
        default_cargo_config(),
        "[build]\ntarget = \"wasm32-unknown-unknown\"\n"
    );
}

#[test]
fn default_schema_compiles() {
    let schema = default_index_schema();
    let sb = SchemaBuilder::new("ns", "idx", "v1", DbType::Postgres);
    let built = sb.build(schema.as_str()).unwrap();
    assert_eq!(built.statements[0], "CREATE SCHEMA IF NOT EXISTS ns_idx");
    // Block and Tx tables, and the implicit tx.block foreign key.
    assert_eq!(built.statements.len(), 3);
    assert_eq!(built.foreign_keys.len(), 1);
    assert_eq!(
        built.foreign_keys[0].create_statement(),
        "ALTER TABLE ns_idx.tx ADD CONSTRAINT fk_tx_block__block_id FOREIGN KEY (block) REFERENCES ns_idx.block(id) ON DELETE NO ACTION ON UPDATE NO ACTION INITIALLY DEFERRED;"
    );
}

#[test]
fn cargo_manifests_embed_the_name() {
    let native = default_native_index_cargo_toml("my_index");
    assert!(native.starts_with("[package]\nname = \"my_index\"\n"));
    assert!(native.contains("native-execution"));
    let wasm = default_index_cargo_toml("my_index");
    assert!(wasm.starts_with("[package]\nname = \"my_index\"\n"));
    assert!(!wasm.contains("native-execution"));
}

#[test]
fn index_manifest_points_at_the_schema() {
    let m = default_index_manifest("ns", "schema.graphql", "my_index", None);
    assert!(m.contains("namespace: ns\n"));
    assert!(m.contains("identifier: my_index\n"));
    assert!(m.contains("graphql_schema: schema/schema.graphql\n"));
    let home = "/home/user/proj".to_string();
    let m2 = default_index_manifest("ns", "schema.graphql", "my_index", Some(&home));
    assert!(m2.contains("graphql_schema: /home/user/proj/schema/schema.graphql\n"));
}

#[test]
fn index_lib_names_the_module_and_manifest() {
    let l = default_index_lib("my_index", "my_index.manifest.yaml", None);
    assert!(l.contains("#[indexer(manifest = \"my_index.manifest.yaml\")]"));
    assert!(l.contains("pub mod my_index_index_mod"));
    assert!(l.contains("fn my_index_handler(block_data: BlockData)"));
}
