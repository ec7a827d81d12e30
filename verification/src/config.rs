//! The configuration of a node.

use vstd::prelude::*;

verus! {

#[derive(Debug, Clone)]
pub struct Config {
    pub server: ServerConfig,
    pub database: DatabaseConfig,
    pub storage: StorageConfig,
}

#[derive(Debug, Clone)]
pub struct ServerConfig {
    pub log_format: String,
    pub s3_bind_addr: String,
    pub internal_bind_addr: String,
    pub advertise_addr: String,
    pub cluster_secret: String,
    pub clock_offset_ms: i64,
    /// Base64-encoded 32-byte Curve25519 private key. Generated on first boot.
    pub noise_private_key: String,
}

#[derive(Debug, Clone)]
pub struct DatabaseConfig {
    /// Filesystem path to this site's embedded metadata store (SQLite).
    pub db_path: String,
}

#[derive(Debug, Clone)]
pub struct StorageConfig {
    pub local_location_id: String,
    /// Where block bytes physically live.
    pub backend: BlockBackend,
    /// Refuse new writes once the data volume has less than this much free space,
    /// to keep the node off the OS out-of-disk (ENOSPC) cliff. Accepts sizes like
    /// "10Gi", "500Mi", "1Ti", or a plain byte count. Omit/empty to disable.
    pub min_free_bytes: Option<String>,
    /// Hard cap on total block bytes stored locally. Accepts "500Gi", "1Ti", etc. Omit to
    /// disable (no cap).
    pub max_bytes: Option<String>,
    pub chunking: ChunkingConfig,
    pub gc_grace_period_seconds: u64,
    pub gc_interval_seconds: u64,
}

/// Physical block-storage backend.
#[derive(Debug, Clone)]
pub enum BlockBackend {
    /// Content-addressed files in a sharded directory tree on local disk.
    Local { path: String },
    /// External SeaweedFS cluster (master assigns fids; volume holds bytes).
    Seaweed { master_url: String, volume_url: String },
}

#[derive(Debug, Clone)]
pub enum ChunkingConfig {
    Fixed { max_block_size: usize },
    Cdc { min_block_size: usize, avg_block_size: usize, max_block_size: usize },
}

/// Blocks live in the directory `blocks` where the configuration names no backend.
pub fn default_block_backend() -> (r: BlockBackend)
    ensures
        r matches BlockBackend::Local { path } && path@ == "blocks"@,
{
    BlockBackend::Local { path: "blocks".to_string() }
}

/// The internal address where the configuration names none.
pub fn default_internal_bind_addr() -> (r: String)
    ensures
        r@ == "0.0.0.0:8015"@,
{
    "0.0.0.0:8015".to_string()
}

impl Config {
    /// The configuration of a node that was given none.
    pub open spec fn is_default(self) -> bool {
        &&& self.server.log_format@ == "text"@
        &&& self.server.s3_bind_addr@ == "0.0.0.0:8014"@
        &&& self.server.internal_bind_addr@ == "0.0.0.0:8015"@
        &&& self.server.advertise_addr@ == "http://localhost:8014"@
        &&& self.server.cluster_secret@ == "default-cluster-secret"@
        &&& self.server.clock_offset_ms == 0
        &&& self.server.noise_private_key@ == Seq::<char>::empty()
        &&& self.database.db_path@ == "shardscape.db"@
        &&& self.storage.local_location_id@ == "default"@
        &&& self.storage.backend matches BlockBackend::Local { path } && path@ == "blocks"@
        &&& self.storage.min_free_bytes matches Some(s) && s@ == "10Gi"@
        &&& self.storage.max_bytes is None
        &&& self.storage.chunking == (ChunkingConfig::Fixed { max_block_size: 10_485_760 })
        &&& self.storage.gc_grace_period_seconds == 300
        &&& self.storage.gc_interval_seconds == 60
    }

    pub fn default() -> (r: Self)
        ensures
            r.is_default(),
    {
        Config {
            server: ServerConfig {
                log_format: "text".to_string(),
                s3_bind_addr: "0.0.0.0:8014".to_string(),
                internal_bind_addr: default_internal_bind_addr(),
                advertise_addr: "http://localhost:8014".to_string(),
                cluster_secret: "default-cluster-secret".to_string(),
                clock_offset_ms: 0,
                noise_private_key: String::new(),
            },
            database: DatabaseConfig { db_path: "shardscape.db".to_string() },
            storage: StorageConfig {
                local_location_id: "default".to_string(),
                backend: default_block_backend(),
                min_free_bytes: Some("10Gi".to_string()),
                max_bytes: None,
                chunking: ChunkingConfig::Fixed { max_block_size: 10 * 1024 * 1024 },
                gc_grace_period_seconds: 300,
                gc_interval_seconds: 60,
            },
        }
    }
}

} // verus!
