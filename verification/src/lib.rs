//! Core of a networked key-value store: a length-delimited frame codec with
//! transparent compression, a table-namespaced storage abstraction, a command
//! dispatcher, and loading of transport-security key material.
pub mod codec;
pub mod memory;
pub mod service;
pub mod sleddb;
pub mod storage;
pub mod tls;
pub mod types;
pub mod wire;
