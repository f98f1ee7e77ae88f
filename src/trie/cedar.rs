//! The double-array trie of the `cedarwood` crate, as the library relies on it.
use vstd::prelude::*;
use cedarwood::Cedar;
use crate::prepare::keys_of;
use crate::semantics::hits_at;
use crate::text::{distinct, offset};

verus! {

#[verifier::external_type_specification]
#[verifier::external_body]
pub struct ExCedar(cedarwood::Cedar);

/// The keys a trie holds, each with its value.
pub uninterp spec fn trie_patterns(t: Cedar) -> Map<Seq<char>, i32>;

/// Whether a trie was built only from keys without a NUL character. The trie
/// marks the end of a key with a child under the byte 0, so a NUL inside a
/// key, or inside a searched text, would be taken for that mark.
pub uninterp spec fn trie_nul_free(t: Cedar) -> bool;

/// `k` holds no NUL character.
pub open spec fn nul_free(k: Seq<char>) -> bool {
    !k.contains('\0')
}

/// The keys of a trie with their values as ordinals.
pub open spec fn trie_view(t: Cedar) -> Map<Seq<char>, u32> {
    trie_patterns(t).map_values(|v: i32| v as u32)
}

/// Relies on `Cedar::new` and `Cedar::build`: the trie holds exactly the
/// given keys, each with its value. `build` panics on an empty key, and a key
/// holding a NUL character would collide with the trie's end-of-key mark.
/// `build` stores the pairs one after another, a later value overwriting an
/// earlier one under the same key, so the keys must be distinct.
#[verifier::external_body]
pub(crate) fn build_trie(key_values: &Vec<(String, u32)>) -> (r: Cedar)
    requires
        forall|i: int| 0 <= i < key_values@.len() ==> (#[trigger] key_values@[i]).0@.len() > 0,
        forall|i: int| 0 <= i < key_values@.len() ==> nul_free(#[trigger] key_values@[i].0@),
        distinct(keys_of(key_values@)),
        forall|i: int| 0 <= i < key_values@.len() ==> (#[trigger] key_values@[i]).1 <= i32::MAX,
    ensures
        trie_nul_free(r),
        forall|k: Seq<char>| #[trigger]
            trie_patterns(r).contains_key(k) <==> keys_of(key_values@).contains(k),
        forall|i: int|
            0 <= i < key_values@.len() ==> trie_patterns(r)[#[trigger] key_values@[i].0@]
                == key_values@[i].1 as i32,
{
    let pairs: Vec<(&str, i32)> = key_values.iter().map(|(k, v)| (k.as_str(), *v as i32)).collect();
    let mut dat = Cedar::new();
    dat.build(&pairs);
    dat
}

/// Relies on `Cedar::common_prefix_search`: every key that is a prefix of
/// `key`, shortest first, each with its value and the byte index of its last
/// byte in `key`. It always returns `Some`. Neither the trie's keys nor
/// `key` may hold a NUL character, which the trie reads as the end of a key.
#[verifier::external_body]
pub(crate) fn prefix_search(t: &Cedar, key: &str) -> (r: Vec<(i32, usize)>)
    requires
        trie_nul_free(*t),
        nul_free(key@),
    ensures
        r@.len() == hits_at(trie_view(*t), key@, 0, 1).len(),
        forall|k: int|
            0 <= k < r@.len() ==> (#[trigger] r@[k]).1 + 1 == offset(
                key@,
                hits_at(trie_view(*t), key@, 0, 1)[k].end as int,
            ) && hits_at(trie_view(*t), key@, 0, 1)[k].index == Some(r@[k].0 as u32),
{
    t.common_prefix_search(key).unwrap_or_default()
}

} // verus!
