//! The map from tokens to ids: a hash map of the `ahash` crate.

use vstd::prelude::*;

verus! {

/// A hash map of the `ahash` crate. Its contents are opaque here.
#[verifier::external_type_specification]
#[verifier::external_body]
#[verifier::reject_recursive_types(K)]
#[verifier::reject_recursive_types(V)]
#[verifier::reject_recursive_types(S)]
pub struct ExAHashMap<K, V, S>(ahash::AHashMap<K, V, S>);

/// The hasher state of the `ahash` crate. Its contents are opaque here.
#[verifier::external_type_specification]
#[verifier::external_body]
pub struct ExRandomState(ahash::RandomState);

/// From tokens to ids.
pub type TokenMap = ahash::AHashMap<String, u32>;

/// What a token map holds: the id of each token in it.
pub uninterp spec fn entries(tokens: ahash::AHashMap<String, u32>) -> Map<Seq<char>, u32>;

/// `ahash::AHashMap::new`: a new map holds no token.
#[verifier::external_body]
pub(crate) fn new_map() -> (fresh: ahash::AHashMap<String, u32>)
    ensures
        (entries(fresh) == Map::<Seq<char>, u32>::empty()),
{
    ahash::AHashMap::new()
}

/// `ahash::AHashMap::insert`: afterwards the token has the id given, whatever it had before,
/// and all other tokens are as they were.
#[verifier::external_body]
pub(crate) fn insert(tokens: &mut ahash::AHashMap<String, u32>, token: String, id: u32)
    ensures
        entries(*final(tokens)) == entries(*old(tokens)).insert(token@, id),
{
    tokens.insert(token, id);
}

/// `ahash::AHashMap::get`: the id of the token, where the map holds it.
#[verifier::external_body]
pub(crate) fn get(tokens: &ahash::AHashMap<String, u32>, token: &str) -> (id: Option<u32>)
    ensures
        id == (if entries(*tokens).contains_key(token@) {
            Some(entries(*tokens)[token@])
        } else {
            None
        }),
{
    tokens.get(token).copied()
}

/// `ahash::AHashMap::clone`: the copy holds the same tokens with the same ids.
#[verifier::external_body]
pub(crate) fn copy(tokens: &ahash::AHashMap<String, u32>) -> (copied: ahash::AHashMap<String, u32>)
    ensures
        entries(copied) == entries(*tokens),
{
    tokens.clone()
}

} // verus!
