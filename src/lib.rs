//! A caching DNS forwarder: a wire-format codec, swappable cache stores and
//! the per-request decision logic of the proxy.
pub mod cache;
pub mod dns;
pub mod proxy;
