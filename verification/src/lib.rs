//! Checking a list of URLs three ways — directly and through two signed
//! reverse proxies — and aggregating the three HTTP statuses per URL.
//!
//! The library holds the logic: the Y64 encoding, the MD5-based URL
//! signer, the signed proxy-URL builder, the per-URL result assembly, the
//! result aggregation, and the counting gate that bounds how many URL
//! checks run at once. The network requests themselves, and the reading
//! and writing of files, live with the caller, which hands the library
//! plain values and takes plain values back.

pub mod codec;
pub mod digits;
pub mod fetcher;
pub mod proxy;
pub mod signer;
