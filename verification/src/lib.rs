//! Ingestion-and-distribution core of an industrial HMI data bridge.
//!
//! PLCs push raw binary process images over TCP; the bridge parses each
//! image against a per-PLC structural schema, maintains a live tag cache
//! with per-tag delivery policies, and fans tag values out to WebSocket
//! clients. This crate holds the verified core: the binary parser, the
//! frame-accumulation state machine, the connection registry, the smart
//! tag cache with its harvesters, and the outbound wire encodings. All
//! I/O (sockets, timers, the on-disk stores) lives in the surrounding
//! application, which drives these state machines with plain values.

pub mod cache;
pub mod config;
pub mod frames;
pub mod numfmt;
pub mod panel;
pub mod parser;
pub mod pool;
pub mod reader;
pub mod registry;
pub mod store;
pub mod wire;
pub mod wsclients;
