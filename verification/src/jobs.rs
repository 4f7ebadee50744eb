pub mod checker;
pub mod listener;
pub mod signer;
pub mod writer;
