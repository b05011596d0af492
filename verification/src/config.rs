//! The gateway's settings.
use vstd::prelude::*;

verus! {

/// How requests are authenticated.
#[derive(Copy, Clone, PartialEq, Eq, Debug, Structural)]
pub enum AuthMode {
    /// Nobody is asked who they are (`none`).
    Open,
    /// Signatures are verified (`verify`).
    Verify,
    /// Signatures are verified and the signer must be listed (`allowlist`).
    Allowlist,
}

/// The gateway's settings.
pub struct Config {
    /// gRPC server bind address.
    pub grpc_addr: String,
    /// HTTP server bind address (artifact proxy and health).
    pub http_addr: String,
    /// Bind address of the operator metrics endpoint, kept apart from the
    /// public artifact surface and on loopback by default.
    pub metrics_addr: String,
    /// Public base URL used to build artifact URIs returned to clients.
    pub public_http_url: String,
    /// URL of the cluster service.
    pub cluster_rpc: String,
    /// Artifact store backend: `s3` or `redis`.
    pub artifact_store: String,
    pub s3_bucket: Option<String>,
    pub s3_region: Option<String>,
    pub s3_concurrency: usize,
    pub redis_nodes: Option<Vec<String>>,
    pub redis_pool_max_size: usize,
    /// Balance reported for any address, as a decimal string. Unset means the
    /// largest 256-bit number.
    pub balance_amount: Option<String>,
    /// Authentication mode for signed requests.
    pub auth_mode: AuthMode,
    /// Comma-separated addresses. Required with [`AuthMode::Allowlist`].
    pub auth_allowlist: Option<String>,
    /// Program-store backend: `memory` or `fs`.
    pub program_store: String,
    /// Directory of the `fs` program store.
    pub program_store_dir: Option<String>,
    /// Whether the admission gate turns requests away.
    pub admission_enforce: bool,
    /// Range-pool max concurrent in-flight.
    pub admission_range_max_inflight: usize,
    /// Aggregation-pool max concurrent in-flight.
    pub admission_agg_max_inflight: usize,
    /// Cap across all pools combined. Unset means that pools are independent.
    pub admission_global_max_inflight: Option<usize>,
    /// Key hashes classified as Range.
    pub admission_range_vk_hashes: Option<Vec<String>>,
    /// Key hashes classified as Agg.
    pub admission_agg_vk_hashes: Option<Vec<String>>,
    /// Reaper sweep period (seconds).
    pub admission_reap_period_secs: u64,
    /// Slot TTL (seconds): must exceed the longest gap between the liveness
    /// signals of a slot, not the duration of a proof.
    pub admission_slot_ttl_secs: u64,
    /// How many consecutive complete snapshots must miss a committed slot
    /// before it is released.
    pub admission_reconcile_absent_observations: u32,
    /// Grace (seconds) after commit before absence counts. 0 disables it.
    pub admission_reconcile_commit_grace_secs: u64,
    /// Timeout (seconds) of the query for the Pending set.
    pub admission_reconcile_fetch_timeout_secs: u64,
    /// Priority-aware slot allocation.
    pub admission_priority_enable: bool,
    /// Proposer ranks: `0xADDR:RANK`, lower rank first.
    pub admission_priority_order: Option<Vec<String>>,
    /// Freshness of priority demand (seconds).
    pub admission_priority_ttl_secs: u64,
}

impl Config {
    /// The settings with nothing set but the cluster's URL.
    pub open spec fn is_default(self) -> bool {
        &&& self.grpc_addr@ == "0.0.0.0:50061"@
        &&& self.http_addr@ == "0.0.0.0:8081"@
        &&& self.metrics_addr@ == "127.0.0.1:9091"@
        &&& self.public_http_url@ == "http://localhost:8081"@
        &&& self.artifact_store@ == "s3"@
        &&& self.s3_bucket is None
        &&& self.s3_region is None
        &&& self.s3_concurrency == 32
        &&& self.redis_nodes is None
        &&& self.redis_pool_max_size == 16
        &&& self.balance_amount is None
        &&& self.auth_mode == AuthMode::Open
        &&& self.auth_allowlist is None
        &&& self.program_store@ == "memory"@
        &&& self.program_store_dir is None
        &&& !self.admission_enforce
        &&& self.admission_range_max_inflight == 1
        &&& self.admission_agg_max_inflight == 2
        &&& self.admission_global_max_inflight is None
        &&& self.admission_range_vk_hashes is None
        &&& self.admission_agg_vk_hashes is None
        &&& self.admission_reap_period_secs == 60
        &&& self.admission_slot_ttl_secs == 3600
        &&& self.admission_reconcile_absent_observations == 3
        &&& self.admission_reconcile_commit_grace_secs == 60
        &&& self.admission_reconcile_fetch_timeout_secs == 10
        &&& !self.admission_priority_enable
        &&& self.admission_priority_order is None
        &&& self.admission_priority_ttl_secs == 90
    }

    /// The settings with nothing set but the cluster's URL.
    pub fn with_cluster(cluster_rpc: String) -> (c: Self)
        ensures
            c.cluster_rpc == cluster_rpc,
            c.is_default(),
    {
        Config {
            grpc_addr: "0.0.0.0:50061".to_owned(),
            http_addr: "0.0.0.0:8081".to_owned(),
            metrics_addr: "127.0.0.1:9091".to_owned(),
            public_http_url: "http://localhost:8081".to_owned(),
            cluster_rpc,
            artifact_store: "s3".to_owned(),
            s3_bucket: None,
            s3_region: None,
            s3_concurrency: 32,
            redis_nodes: None,
            redis_pool_max_size: 16,
            balance_amount: None,
            auth_mode: AuthMode::Open,
            auth_allowlist: None,
            program_store: "memory".to_owned(),
            program_store_dir: None,
            admission_enforce: false,
            admission_range_max_inflight: 1,
            admission_agg_max_inflight: 2,
            admission_global_max_inflight: None,
            admission_range_vk_hashes: None,
            admission_agg_vk_hashes: None,
            admission_reap_period_secs: 60,
            admission_slot_ttl_secs: 3600,
            admission_reconcile_absent_observations: 3,
            admission_reconcile_commit_grace_secs: 60,
            admission_reconcile_fetch_timeout_secs: 10,
            admission_priority_enable: false,
            admission_priority_order: None,
            admission_priority_ttl_secs: 90,
        }
    }
}

} // verus!
