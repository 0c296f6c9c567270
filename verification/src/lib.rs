use vstd::prelude::*;

pub mod bytesutil;
pub mod compress;
pub mod container;
pub mod crypto;
pub mod dto;
pub mod errors;
pub mod kdf;
pub mod mutate;
pub mod payload;
pub mod storage;
pub mod tree;

pub use errors::ContainerError;
pub use kdf::DerivedKeySet;
pub use kdf::KdfParams;

verus! {

} // verus!
