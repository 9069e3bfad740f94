//! Peer, connection and block-download bookkeeping of a Utreexo node.
pub mod address;
pub mod blocks;
pub mod conn;
pub mod external;
pub mod host;
pub mod inflight;
pub mod laws;
pub mod node;
pub mod peer_man;
pub mod types;
pub mod vec_map;
