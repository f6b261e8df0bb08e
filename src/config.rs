use vstd::prelude::*;

verus! {

/// One endpoint under benchmark.
pub struct RpcNode {
    /// The name the report uses for the endpoint.
    pub name: String,
    /// Where transactions are submitted.
    pub http_url: String,
    /// Where signature subscriptions are made.
    pub ws_url: String,
}

/// The settings of one benchmark run.
pub struct BenchmarkConfig {
    /// Where the paying keypair is stored.
    pub keypair_path: String,
    /// The recipient of every transfer, in its text encoding.
    pub recipient: String,
    /// The amount of the first transfer; each further one is one more.
    pub amount_lamports: u64,
    /// How many transactions to build.
    pub num_transactions: usize,
    /// The endpoints to compare.
    pub rpc_nodes: Vec<RpcNode>,
    /// How long to wait for confirmations; two minutes where unset.
    pub transaction_timeout_seconds: Option<u64>,
}

/// The command line.
pub struct CliArgs {
    /// Path to the configuration file.
    pub config: String,
}

} // verus!
