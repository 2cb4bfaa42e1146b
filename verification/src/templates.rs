//! Scaffolding text for a new indexer project: manifest, schema,
//! handler module and build configuration, each rendered around the
//! project's name.

use vstd::prelude::*;

verus! {

/// The Cargo manifest of a natively executed indexer project.
pub fn default_native_index_cargo_toml(index_name: &str) -> (r: String)
    ensures
        r@ == "[package]\nname = \""@ + index_name@
            + "\"\nversion = \"0.0.0\"\nedition = \"2021\"\npublish = false\n\n[lib]\ncrate-type = ['cdylib']\n\n[dependencies]\nfuel-indexer-macros = { version = \"0.11\", default-features = false }\nfuel-indexer-plugin = { version = \"0.11\", features = [\"native-execution\"] }\nfuel-indexer-schema = { version = \"0.11\", default-features = false }\nfuel-tx = \"0.26\"\nfuels = { version = \"0.40.0\", default-features = false }\ngetrandom = { version = \"0.2\", features = [\"js\"] }\nserde = { version = \"1.0\", default-features = false, features = [\"derive\"] }\n"@,
{
    let mut s: String = "[package]\nname = \"".to_owned();
    s.append(index_name);
    s.append(
        "\"\nversion = \"0.0.0\"\nedition = \"2021\"\npublish = false\n\n[lib]\ncrate-type = ['cdylib']\n\n[dependencies]\nfuel-indexer-macros = { version = \"0.11\", default-features = false }\nfuel-indexer-plugin = { version = \"0.11\", features = [\"native-execution\"] }\nfuel-indexer-schema = { version = \"0.11\", default-features = false }\nfuel-tx = \"0.26\"\nfuels = { version = \"0.40.0\", default-features = false }\ngetrandom = { version = \"0.2\", features = [\"js\"] }\nserde = { version = \"1.0\", default-features = false, features = [\"derive\"] }\n",
    );
    s
}

/// The Cargo manifest of a sandboxed indexer project.
pub fn default_index_cargo_toml(index_name: &str) -> (r: String)
    ensures
        r@ == "[package]\nname = \""@ + index_name@
            + "\"\nversion = \"0.0.0\"\nedition = \"2021\"\npublish = false\n\n[lib]\ncrate-type = ['cdylib']\n\n[dependencies]\nfuel-indexer-macros = { version = \"0.11\", default-features = false }\nfuel-indexer-plugin = { version = \"0.11\" }\nfuel-indexer-schema = { version = \"0.11\", default-features = false }\nfuel-tx = \"0.26\"\nfuels = { version = \"0.40.0\", default-features = false }\ngetrandom = { version = \"0.2\", features = [\"js\"] }\nserde = { version = \"1.0\", default-features = false, features = [\"derive\"] }\n"@,
{
    let mut s: String = "[package]\nname = \"".to_owned();
    s.append(index_name);
    s.append(
        "\"\nversion = \"0.0.0\"\nedition = \"2021\"\npublish = false\n\n[lib]\ncrate-type = ['cdylib']\n\n[dependencies]\nfuel-indexer-macros = { version = \"0.11\", default-features = false }\nfuel-indexer-plugin = { version = \"0.11\" }\nfuel-indexer-schema = { version = \"0.11\", default-features = false }\nfuel-tx = \"0.26\"\nfuels = { version = \"0.40.0\", default-features = false }\ngetrandom = { version = \"0.2\", features = [\"js\"] }\nserde = { version = \"1.0\", default-features = false, features = [\"derive\"] }\n",
    );
    s
}

/// Where the schema file of a project stands: under the project path
/// when one is given.
pub open spec fn schema_path_chars(schema_filename: Seq<char>, project_path: Option<Seq<char>>) -> Seq<
    char,
> {
    match project_path {
        Some(p) => p + "/schema/"@ + schema_filename,
        None => "schema/"@ + schema_filename,
    }
}

/// The manifest of a new indexer.
pub fn default_index_manifest(
    namespace: &str,
    schema_filename: &str,
    index_name: &str,
    project_path: Option<&String>,
) -> (r: String)
    ensures
        r@ == "# A namespace is a logical grouping of declared names. Think of the namespace\n# as an organization identifier\nnamespace: "@
            + namespace@
            + "\n\n# The identifier field is used to identify the given index.\nidentifier: "@
            + index_name@
            + "\n\n# The abi option is used to provide a link to the Sway JSON ABI that is generated when you\n# build your project.\nabi: ~\n\n# The particular start block after which you'd like your indexer to start indexing events.\nstart_block: ~\n\n# The `fuel_client` denotes the address (host, port combination) of the running Fuel client\n# that you would like your indexer to index events from. In order to use this per-indexer\n# `fuel_client` option, the indexer service at which your indexer is deployed will have to run\n# with the `--indexer_net_config` option.\nfuel_client:\n\n# The contract_id specifies which particular contract you would like your index to subscribe to.\ncontract_id: ~\n\n# The graphql_schema field contains the file path that points to the GraphQL schema for the\n# given index.\ngraphql_schema: "@
            + schema_path_chars(schema_filename@, match project_path {
                Some(p) => Some(p@),
                None => None,
            })
            + "\n\n# The module field contains a file path that points to code that will be run as an executor inside\n# of the indexer.\n# Important: At this time, wasm is the preferred method of execution.\nmodule:\n    wasm: ~\n\n# The report_metrics field contains boolean whether or not to report Prometheus  metrics to the\n# Fuel backend\nreport_metrics: true\n\n# The resumable field contains a boolean that specifies whether or not the indexer should, synchronise\n# with the latest block if it has fallen out of sync.\nresumable: ~\n"@,
{
    let schema_path: String = match project_path {
        Some(p) => {
            let mut sp = p.clone();
            sp.append("/schema/");
            sp.append(schema_filename);
            sp
        },
        None => {
            let mut sp: String = "schema/".to_owned();
            sp.append(schema_filename);
            sp
        },
    };
    let mut s: String =
        "# A namespace is a logical grouping of declared names. Think of the namespace\n# as an organization identifier\nnamespace: ".to_owned();
    s.append(namespace);
    s.append("\n\n# The identifier field is used to identify the given index.\nidentifier: ");
    s.append(index_name);
    s.append(
        "\n\n# The abi option is used to provide a link to the Sway JSON ABI that is generated when you\n# build your project.\nabi: ~\n\n# The particular start block after which you'd like your indexer to start indexing events.\nstart_block: ~\n\n# The `fuel_client` denotes the address (host, port combination) of the running Fuel client\n# that you would like your indexer to index events from. In order to use this per-indexer\n# `fuel_client` option, the indexer service at which your indexer is deployed will have to run\n# with the `--indexer_net_config` option.\nfuel_client:\n\n# The contract_id specifies which particular contract you would like your index to subscribe to.\ncontract_id: ~\n\n# The graphql_schema field contains the file path that points to the GraphQL schema for the\n# given index.\ngraphql_schema: ",
    );
    s.append(schema_path.as_str());
    s.append(
        "\n\n# The module field contains a file path that points to code that will be run as an executor inside\n# of the indexer.\n# Important: At this time, wasm is the preferred method of execution.\nmodule:\n    wasm: ~\n\n# The report_metrics field contains boolean whether or not to report Prometheus  metrics to the\n# Fuel backend\nreport_metrics: true\n\n# The resumable field contains a boolean that specifies whether or not the indexer should, synchronise\n# with the latest block if it has fallen out of sync.\nresumable: ~\n",
    );
    s
}

/// Where the manifest of a project stands: under the project path when
/// one is given.
pub open spec fn manifest_path_chars(
    manifest_filename: Seq<char>,
    project_path: Option<Seq<char>>,
) -> Seq<char> {
    match project_path {
        Some(p) => p + "/"@ + manifest_filename,
        None => manifest_filename,
    }
}

/// The handler module of a new indexer.
pub fn default_index_lib(
    index_name: &str,
    manifest_filename: &str,
    project_path: Option<&String>,
) -> (r: String)
    ensures
        r@ == "extern crate alloc;\nuse fuel_indexer_macros::indexer;\nuse fuel_indexer_plugin::prelude::*;\n\n#[indexer(manifest = \""@
            + manifest_path_chars(manifest_filename@, match project_path {
                Some(p) => Some(p@),
                None => None,
            }) + "\")]\npub mod "@ + index_name@
            + "_index_mod {\n\n    fn "@ + index_name@
            + "_handler(block_data: BlockData) {\n        Logger::info(\"Processing a block. (>'.')>\");\n\n        let block_id = first8_bytes_to_u64(block_data.id);\n        let block = Block{ id: block_id, height: block_data.height, hash: block_data.id };\n        block.save();\n\n        for transaction in block_data.transactions.iter() {\n            Logger::info(\"Handling a transaction (>'.')>\");\n\n            let tx = Tx{ id: first8_bytes_to_u64(transaction.id), block: block_id, hash: transaction.id };\n            tx.save();\n        }\n    }\n}\n"@,
{
    let manifest_path: String = match project_path {
        Some(p) => {
            let mut mp = p.clone();
            mp.append("/");
            mp.append(manifest_filename);
            mp
        },
        None => manifest_filename.to_owned(),
    };
    let mut s: String =
        "extern crate alloc;\nuse fuel_indexer_macros::indexer;\nuse fuel_indexer_plugin::prelude::*;\n\n#[indexer(manifest = \"".to_owned();
    s.append(manifest_path.as_str());
    s.append("\")]\npub mod ");
    s.append(index_name);
    s.append("_index_mod {\n\n    fn ");
    s.append(index_name);
    s.append(
        "_handler(block_data: BlockData) {\n        Logger::info(\"Processing a block. (>'.')>\");\n\n        let block_id = first8_bytes_to_u64(block_data.id);\n        let block = Block{ id: block_id, height: block_data.height, hash: block_data.id };\n        block.save();\n\n        for transaction in block_data.transactions.iter() {\n            Logger::info(\"Handling a transaction (>'.')>\");\n\n            let tx = Tx{ id: first8_bytes_to_u64(transaction.id), block: block_id, hash: transaction.id };\n            tx.save();\n        }\n    }\n}\n",
    );
    s
}

/// The starting schema of a new indexer.
pub fn default_index_schema() -> (r: String)
    ensures
        r@ == "schema {\n    query: QueryRoot\n}\n\ntype QueryRoot {\n    block: Block\n    tx: Tx\n}\n\ntype Block {\n    id: ID!\n    height: UInt8!\n    hash: Bytes32! @unique\n}\n\ntype Tx {\n    id: ID!\n    block: Block!\n    hash: Bytes32! @unique\n}\n\n"@,
{
    "schema {\n    query: QueryRoot\n}\n\ntype QueryRoot {\n    block: Block\n    tx: Tx\n}\n\ntype Block {\n    id: ID!\n    height: UInt8!\n    hash: Bytes32! @unique\n}\n\ntype Tx {\n    id: ID!\n    block: Block!\n    hash: Bytes32! @unique\n}\n\n".to_owned()
}

/// The Cargo build configuration of a new indexer.
pub fn default_cargo_config() -> (r: String)
    ensures
        r@ == "[build]\ntarget = \"wasm32-unknown-unknown\"\n"@,
{
    "[build]\ntarget = \"wasm32-unknown-unknown\"\n".to_owned()
}

/// The file name of a project's manifest.
pub fn manifest_name(index_name: &str) -> (r: String)
    ensures
        r@ == index_name@ + ".manifest.yaml"@,
{
    let mut s: String = index_name.to_owned();
    s.append(".manifest.yaml");
    s
}

} // verus!
