//! The string interner behind formula names: `lasso::Rodeo`, reached through trusted
//! wrappers whose contracts state what the crate's source does to the interned strings.

use vstd::prelude::*;
use lasso::{Key, Rodeo, Spur};

verus! {

#[verifier::external_type_specification]
#[verifier::external_body]
#[verifier::reject_recursive_types(K)]
#[verifier::reject_recursive_types(S)]
pub struct ExRodeo<K, S>(Rodeo<K, S>);

#[verifier::external_type_specification]
#[verifier::external_body]
pub struct ExSpur(Spur);

/// The strings an interner holds, in key order: the key with index `k` resolves to the
/// string at position `k`.
pub uninterp spec fn interned(r: Rodeo) -> Seq<Seq<char>>;

/// Calls `lasso::Rodeo::new`. A new interner holds no strings.
#[verifier::external_body]
pub(crate) fn rodeo_new() -> (r: Rodeo)
    ensures
        interned(r).len() == 0,
{
    Rodeo::new()
}

/// Calls `lasso::Rodeo::try_get_or_intern` and gives back the index of the key. A
/// string already held keeps its key and leaves the interner as it was; a new string is
/// appended and gets the next index. On failure (no key left, or the arena could not
/// allocate) nothing is added, and the string was not held before. When failure comes
/// is not stated: it depends on memory.
#[verifier::external_body]
pub(crate) fn rodeo_intern(r: &mut Rodeo, s: &str) -> (k: Option<u32>)
    ensures
        match k {
            Some(k) => if interned(*old(r)).contains(s@) {
                &&& interned(*final(r)) == interned(*old(r))
                &&& k < interned(*old(r)).len()
                &&& interned(*old(r))[k as int] == s@
            } else {
                &&& interned(*final(r)) == interned(*old(r)).push(s@)
                &&& k == interned(*old(r)).len()
            },
            None => {
                &&& interned(*final(r)) == interned(*old(r))
                &&& !interned(*old(r)).contains(s@)
            },
        },
{
    match r.try_get_or_intern(s) {
        Ok(key) => Some(key.into_usize() as u32),
        Err(_) => None,
    }
}

/// Calls `lasso::Rodeo::len`: the number of strings held.
#[verifier::external_body]
pub(crate) fn rodeo_len(r: &Rodeo) -> (n: usize)
    ensures
        n == interned(*r).len(),
{
    r.len()
}

/// Calls `lasso::Rodeo::resolve` on the key with index `k`: the string held at `k`.
#[verifier::external_body]
pub(crate) fn rodeo_resolve(r: &Rodeo, k: u32) -> (s: String)
    requires
        k < interned(*r).len(),
    ensures
        s@ == interned(*r)[k as int],
{
    match Spur::try_from_usize(k as usize) {
        Some(key) => r.resolve(&key).to_string(),
        None => String::new(),
    }
}

} // verus!
