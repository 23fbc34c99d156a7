//! Metadata record describing one stored save version. Pure data: clocks,
//! device ids and version numbering are assigned by the sync engine.
use vstd::prelude::*;

verus! {

/// Metadata for one version of one game's save in the vault.
#[derive(Debug)]
pub struct SaveVersion {
    /// Monotonic version number, starts at 1 for the first push.
    pub number: u64,
    /// BLAKE3 hex hash of the decrypted, decompressed save content.
    pub content_hash: String,
    /// Unix epoch milliseconds when this version was created.
    pub created_at_ms: u64,
    /// Display name of the member who pushed it.
    pub author: String,
    /// Stable identifier of the device that pushed it.
    pub device_id: String,
    /// Size in bytes of the decrypted, decompressed save content.
    pub size_bytes: u64,
    /// Number of encrypted chunks this version was split into.
    pub chunk_count: u32,
}

impl SaveVersion {
    /// A copy of this record.
    pub fn copy(&self) -> (r: SaveVersion)
        ensures
            r == *self,
    {
        SaveVersion {
            number: self.number,
            content_hash: self.content_hash.clone(),
            created_at_ms: self.created_at_ms,
            author: self.author.clone(),
            device_id: self.device_id.clone(),
            size_bytes: self.size_bytes,
            chunk_count: self.chunk_count,
        }
    }
}

} // verus!
