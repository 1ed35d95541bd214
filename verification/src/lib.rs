//! A client-side synchronization layer between a process and a distributed
//! key-value store: path specifications, mutation operations, a verified
//! model of the store's documented semantics, and the decision logic of the
//! watch/lease/reconcile loop.

pub mod errors;
pub mod etcd_conf;
pub mod kafka_config;
pub mod laws;
pub mod mqtt;
pub mod store_model;
pub mod strings;
