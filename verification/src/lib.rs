//! Salvaê: save-sync for co-op games. The verified library holds the pure
//! logic: chunking and sealing of save blobs, the pack archive format, Steam
//! VDF parsing, save-folder ranking and resolution, the sync engine's
//! decisions, invites and configuration state, and Discord JSON parsing.
pub mod text;
pub mod strmap;
pub mod error;
pub mod chunk;
pub mod vdf;
pub mod debug_text;
pub mod paths;
pub mod game;
pub mod candidate;
pub mod pack;
pub mod cipher;
pub mod compress;
pub mod hash;
pub mod kdf;
pub mod seal;
pub mod seed;
pub mod sync_state;
pub mod marker;
pub mod config;
pub mod roots;
pub mod snapshot;
pub mod manifest;
pub mod save_dir;
pub mod steam;
pub mod epic;
pub mod version;
pub mod engine;
pub mod agent;
pub mod discord;
