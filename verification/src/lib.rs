//! A local key management and asymmetric encryption library: it creates named
//! keys, keeps them in an ordered store, persists the store as text, and uses
//! stored keys to encrypt and decrypt byte payloads.
pub mod codec;
pub mod errors;
pub mod model;
pub mod rsa_ops;
pub mod store;

pub use errors::KeyStoreError;
pub use store::{KeyComponents, KeyDetails, KeyEntry, KeyStore};
