//! Cache-aside acceleration for a signed key-value RPC API: client-side request
//! rewriting, proxy-side header reconciliation, action dispatch, cache keys and
//! response snapshots.

pub mod headers;
pub mod rewrite;
pub mod uri;
pub mod text;
pub mod cache_key;
pub mod proxy;
pub mod snapshot;
