//! Encrypted, order-preserving module archives: a packer that turns an ordered
//! list of source files into a container of encrypted entries, and a loader
//! that decrypts the entries in stored order and tells its host which modules
//! to define and which entry-point text to run.
pub mod cipher;
pub mod container;
pub mod pack;
pub mod loader;
