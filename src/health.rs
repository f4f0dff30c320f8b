//! The bodies of the health and statistics endpoints.

use vstd::prelude::*;

use crate::cache;

verus! {

/// The state of the service.
pub struct HealthResponse {
    pub status: &'static str,
    pub index_documents: u64,
    pub index_segments: usize,
    pub cache_enabled: bool,
}

impl HealthResponse {
    /// A healthy service with an index of the given size.
    pub fn ok(index_documents: u64, index_segments: usize, cache_enabled: bool) -> (r: Self)
        ensures
            r.status@ == "ok"@,
            r.index_documents == index_documents,
            r.index_segments == index_segments,
            r.cache_enabled == cache_enabled,
    {
        HealthResponse { status: "ok", index_documents, index_segments, cache_enabled }
    }
}

/// The size of the index.
pub struct IndexStats {
    pub documents: u64,
    pub segments: usize,
    pub size_bytes: u64,
}

/// The state of the cache.
pub struct CacheStats {
    pub connected: bool,
    pub hits: u64,
    pub misses: u64,
}

impl CacheStats {
    /// The state of the cache from a ping and, where the store answered, its
    /// counts; the counts are zero where it did not.
    pub fn from_report(connected: bool, report: Option<cache::CacheStats>) -> (r: Self)
        ensures
            r.connected == connected,
            r.hits == (match report {
                Some(s) => s.hits,
                None => 0,
            }),
            r.misses == (match report {
                Some(s) => s.misses,
                None => 0,
            }),
    {
        match report {
            Some(s) => CacheStats { connected, hits: s.hits, misses: s.misses },
            None => CacheStats { connected, hits: 0, misses: 0 },
        }
    }
}

/// The statistics of the index and, where there is one, of the cache.
pub struct StatsResponse {
    pub index: IndexStats,
    pub cache: Option<CacheStats>,
}

} // verus!
