//! Decoding of untrusted byte input into a typed value tree with strict,
//! type-checked field extraction, and deterministic fixed-layout binary
//! keys, records and hashes that address persistent state in an
//! account-based virtual machine.

use vstd::prelude::*;

pub mod json;
pub mod types;

verus! {

} // verus!
