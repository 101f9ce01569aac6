//! Verified core of a compile-time dependency-injection code generator:
//! the byte encodings and hashes used to name generated items, and the
//! decisions that drive the generated wiring code.
use vstd::prelude::*;

pub mod attrs;
pub mod collection;
pub mod encoding;
pub mod hash;
pub mod imports;
pub mod init;
pub mod injectable;
pub mod model;
pub mod module;
pub mod naming;
pub mod provider;
pub mod record;
pub mod retry;
pub mod scope;
pub mod types;

verus! {

} // verus!
