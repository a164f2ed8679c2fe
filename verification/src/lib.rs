pub mod binding;
pub mod cluster;
pub mod config;
pub mod consistent_hash;
pub mod cursor;
pub mod error;
pub mod graph;
pub mod keys;
pub mod laws;
pub mod ring;
pub mod session;
pub mod slots;
pub mod work;
