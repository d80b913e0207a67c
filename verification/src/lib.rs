//! A small event-streaming broker: durable partition logs made of record
//! segments, topic and consumer-group bookkeeping, and the command layer of
//! its command-line front end.
pub mod bytes;
pub mod model;
pub mod text;
pub mod record_codec;
pub mod paths;
pub mod segment;
pub mod filesystem;
pub mod kv_text;
pub mod topic_store;
pub mod order;
pub mod offsets;
pub mod consumer_group;
pub mod topic_manager;
pub mod partition_log;
pub mod storage;
pub mod partition_manager;
pub mod cli;
pub mod runtime_commands;
pub mod configuration;
pub mod workspace;
pub mod runtime;
