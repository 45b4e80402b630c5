//! Two in-memory storage models, a document store with secondary indexes and a
//! relational store with per-column indexes, driven by one deterministic
//! workload generator so that both receive the same data; and a minimal
//! key-value store with a command interpreter.

pub mod cli;
pub mod document;
pub mod generator;
pub mod index;
pub mod kv;
pub mod laws;
pub mod relational;
pub mod text;
pub mod value;
pub mod workload;

pub use kv::BurrowDB;
