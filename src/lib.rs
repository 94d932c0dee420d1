//! Realtime pub/sub dispatch core: channel classification, signature checks,
//! the per-app namespace index, fan-out planning, cluster aggregation, the
//! connection liveness machine and the cluster wire codec.
pub mod text;
pub mod error;
pub mod app;
pub mod channel;
pub mod token;
pub mod manager;
pub mod namespace;
pub mod handler;
pub mod local_adapter;
pub mod cleanup;
pub mod horizontal;
pub mod codec;
