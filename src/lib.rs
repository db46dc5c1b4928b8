//! Recovery keys of the form `203c-d001-xxxx-xxxx-xxxx-xxxx` and the unlock
//! password derived from each of them.
pub mod checksum;
pub mod hex;
pub mod key;
pub mod laws;

pub use key::{InvalidKey, RecoveryKey};
