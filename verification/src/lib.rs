//! An authorization-gated key/value store for a long-lived process that can be
//! stopped and brought up again without losing who may write to it.
//!
//! The crate has four parts. [`principal`] defines caller identities and the
//! order in which they are kept. [`auth`] holds the set of identities that may
//! change the store. [`store`] maps paths to byte blobs. [`lifecycle`] moves the
//! registry through first start, suspension before a restart and resumption
//! after it, and [`backend`] ties the parts into the operations that a host
//! exposes to callers.

pub mod principal;
pub mod auth;
pub mod store;
pub mod lifecycle;
pub mod backend;
