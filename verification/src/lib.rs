//! Content-addressed static-site deployment and serving.
//!
//! The library holds the verified core of a small deployment system:
//! a deploy client publishes a directory tree as a *commit* whose files
//! point at content-addressed *objects*, a management service registers
//! manifests and object uploads against a metadata store, and a serving
//! engine resolves `(domain, path)` requests to stored blobs with
//! fallback routing for single-page applications and conditional-GET
//! handling.
//!
//! All logic works on plain values (byte vectors, integers); network,
//! filesystem and database plumbing lives outside the library and hands
//! values in and out.

pub mod blob;
pub mod bytes;
pub mod deploy;
pub mod digest;
pub mod hexcode;
pub mod httpdate;
pub mod manage;
pub mod pathcode;
pub mod serve;
pub mod store;

