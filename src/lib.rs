//! A persistent multi-queue message broker: the queue engine, its
//! replication log and protocol, and the binary formats it persists and
//! ships, each with its contract.

pub mod message;
pub mod builder;
pub mod tree;
pub mod event;
pub mod storage;
pub mod replica;
pub mod protocol;
pub mod codec;
pub mod persistence;
pub mod push;
pub mod access;
pub mod config;
