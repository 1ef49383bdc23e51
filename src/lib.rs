//! An S3-compatible object gateway over a flat directory.
//!
//! - `auth` decides whether a request is authorized: key headers, a simple
//!   `access:secret` authorization, AWS Signature Version 4, or query
//!   parameters, the first scheme the request attempts deciding.
//! - `store` answers list, get, put, delete and head from what the filesystem
//!   reported, with the entity tags each operation gives.
//! - `digest` holds the hashing, hex, content-type and timestamp calls into
//!   outside crates; `bytes` and `sort` the byte-string helpers they rest on.
pub mod bytes;
pub mod sort;
pub mod digest;
pub mod auth;
pub mod store;
