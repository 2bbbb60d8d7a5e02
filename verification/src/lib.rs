//! Request-attribution and diagnostic-snapshot core for a small web server.
//!
//! Three leaf components: a trusted-proxy resolver that decides which client
//! address and scheme to believe, an IP range matcher that answers CIDR
//! containment questions over a vendor-published table, and a request
//! snapshot builder that normalizes headers, body and user-agent data into
//! one canonical record. Everything here is pure computation over plain
//! values; the surrounding process (I/O, routing, rendering) hands values in
//! and takes values back.

pub mod config;
pub mod extractors;
pub mod headers;
pub mod ip;
pub mod microwave;
pub mod relay;
pub mod snapshot;
pub mod strutil;
pub mod uuidgen;
