//! Identifiers that name analysed repositories.
use std::collections::hash_map::DefaultHasher;
use std::hash::{BuildHasher, BuildHasherDefault};
use vstd::prelude::*;

verus! {

/// The hash that std's `DefaultHasher`, created with `new`, gives the
/// string `s`: that hasher is not seeded per process.
pub uninterp spec fn default_hash(s: Seq<char>) -> u64;

/// Relies on `BuildHasher::hash_one` for `BuildHasherDefault<DefaultHasher>`,
/// which hashes `s` with a fresh `DefaultHasher::default()`.
#[verifier::external_body]
fn hash_string(s: &String) -> (r: u64)
    ensures
        r == default_hash(s@),
{
    BuildHasherDefault::<DefaultHasher>::default().hash_one(s)
}

/// Identifier of the repository at `path`: the same path always gets the same one.
pub fn repo_hash(path: &String) -> (r: u64)
    ensures
        r == default_hash(path@),
{
    hash_string(path)
}

} // verus!
