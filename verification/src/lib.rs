//! A small credential library: a block hash primitive, a cost-iterated
//! password hashing scheme, a self-describing text encoding for the result,
//! and a persistent username-to-hash store.

use vstd::prelude::*;

pub mod b64;
pub mod codec;
pub mod hashing;
pub mod sha256;
pub mod store;
pub mod text;

verus! {

/// Default length of a freshly generated salt, in bytes.
pub const DEF_SALT_LEN: usize = 16;

/// Default work factor for password hashing: the primitive runs 2^n times.
pub const DEF_HASH_COST: u64 = 12;

/// Tag naming the hashing scheme inside an encoded hash.
pub const HASH_VERSION: &'static str = "sha256iter-1";

/// Longest password or salt, in bytes, that a derivation accepts: keeps the
/// primitive's 64-bit bit-length counter sound.  A machine limit, not a
/// tuning choice.
pub const MAX_HASH_INPUT: u64 = 0x07ff_ffff_ffff_ffff;

} // verus!
