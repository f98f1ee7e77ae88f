//! Checking and numbering the patterns of a dictionary.
use vstd::prelude::*;
use vstd::hash_map::StringHashMap;
use crate::error::BuildError;
use crate::text::{distinct, folded, lowercase, maps_to_ordinals, reversed, CharText, MAX_PATTERNS};

verus! {

/// The key under which a case-folded pattern is stored: reversed for a
/// backward dictionary.
pub open spec fn stored_key(k: Seq<char>, reverse: bool) -> Seq<char> {
    if reverse {
        k.reverse()
    } else {
        k
    }
}

/// The keys of pattern-ordinal pairs.
pub open spec fn keys_of(pv: Seq<(String, u32)>) -> Seq<Seq<char>> {
    pv.map_values(|p: (String, u32)| p.0@)
}

/// Case-folds the patterns, reversing each where `reverse` holds, and pairs
/// pattern `i` with ordinal `i`.
pub(crate) fn prepare_patterns(patterns: &Vec<&str>, reverse: bool, limit: u64) -> (r: Result<
    Vec<(String, u32)>,
    BuildError,
>)
    requires
        limit <= MAX_PATTERNS,
    ensures
        patterns@.len() == 0 ==> r == Err::<Vec<(String, u32)>, BuildError>(
            BuildError::EmptyPatternSet,
        ),
        patterns@.len() > limit ==> r == Err::<Vec<(String, u32)>, BuildError>(
            BuildError::IndexOverflow,
        ),
        0 < patterns@.len() <= limit ==> (r is Err <==> !distinct(folded(patterns@))),
        r is Err && 0 < patterns@.len() <= limit ==> r == Err::<
            Vec<(String, u32)>,
            BuildError,
        >(BuildError::DuplicatePattern),
        r matches Ok(pv) ==> {
            &&& pv@.len() == patterns@.len()
            &&& pv@.len() <= limit
            &&& distinct(keys_of(pv@))
            &&& forall|i: int|
                0 <= i < pv@.len() ==> (#[trigger] pv@[i]).0@ == stored_key(
                    folded(patterns@)[i],
                    reverse,
                ) && pv@[i].1 == i
        },
{
    if patterns.len() == 0 {
        return Err(BuildError::EmptyPatternSet);
    }
    if patterns.len() as u64 > limit {
        return Err(BuildError::IndexOverflow);
    }
    let ghost keys = folded(patterns@);
    let mut seen: StringHashMap<u32> = StringHashMap::new();
    let mut out: Vec<(String, u32)> = Vec::new();
    let mut i: usize = 0;
    while i < patterns.len()
        invariant
            keys == folded(patterns@),
            limit <= MAX_PATTERNS,
            patterns@.len() <= limit,
            0 <= i <= patterns@.len(),
            distinct(keys.take(i as int)),
            forall|k: Seq<char>| seen@.contains_key(k) <==> exists|j: int| 0 <= j < i && keys[j] == k,
            out@.len() == i,
            forall|j: int|
                0 <= j < i ==> (#[trigger] out@[j]).0@ == stored_key(keys[j], reverse) && out@[j].1
                    == j,
        decreases patterns@.len() - i,
    {
        let key = lowercase(patterns[i]);
        proof {
            assert(key@ == keys[i as int]);
        }
        if seen.contains_key(key.as_str()) {
            proof {
                let j = choose|j: int| 0 <= j < i && keys[j] == key@;
                assert(keys.take(i + 1)[j] == keys.take(i + 1)[i as int]);
            }
            return Err(BuildError::DuplicatePattern);
        }
        let stored = if reverse {
            let chars = CharText::from_str(key.as_str());
            reversed(&chars.chars)
        } else {
            key.clone()
        };
        proof {
            assert(stored@ == stored_key(keys[i as int], reverse));
        }
        seen.insert(key, 0);
        out.push((stored, i as u32));
        proof {
            let t = keys.take(i + 1);
            assert forall|a: int, b: int| 0 <= a < b < t.len() implies #[trigger] t[a] != #[trigger] t[b] by {
                if b < i {
                    assert(keys.take(i as int)[a] != keys.take(i as int)[b]);
                } else {
                    assert(0 <= a < i && keys[a] == keys[a]);
                    assert(seen@.contains_key(keys[a]));
                }
            }
            assert(distinct(t));
            assert forall|k: Seq<char>| seen@.contains_key(k) <==> exists|j: int|
                0 <= j < i + 1 && keys[j] == k by {
                if k == keys[i as int] {
                    assert(0 <= i < i + 1 && keys[i as int] == k);
                }
            }
        }
        i = i + 1;
    }
    proof {
        assert(keys.take(i as int) =~= keys);
        assert forall|a: int, b: int| 0 <= a < b < out@.len() implies keys_of(out@)[a] != keys_of(
            out@,
        )[b] by {
            assert(keys[a] != keys[b]);
            if reverse {
                assert(keys[a] =~= keys[a].reverse().reverse());
                assert(keys[b] =~= keys[b].reverse().reverse());
            }
        }
    }
    Ok(out)
}

/// The outcome of building a dictionary from `patterns` with at most `limit`
/// ordinals: the construction errors, in the order they are checked, and on
/// success a dictionary `view` that numbers the case-folded patterns in order.
pub open spec fn built_from(
    patterns: Seq<&str>,
    limit: nat,
    r: Result<Map<Seq<char>, u32>, BuildError>,
) -> bool {
    &&& patterns.len() == 0 ==> r == Err::<Map<Seq<char>, u32>, BuildError>(
        BuildError::EmptyPatternSet,
    )
    &&& patterns.len() > limit ==> r == Err::<Map<Seq<char>, u32>, BuildError>(
        BuildError::IndexOverflow,
    )
    &&& 0 < patterns.len() <= limit && !distinct(folded(patterns)) ==> r == Err::<
        Map<Seq<char>, u32>,
        BuildError,
    >(BuildError::DuplicatePattern)
    &&& 0 < patterns.len() <= limit && distinct(folded(patterns)) ==> (r is Ok || r == Err::<
        Map<Seq<char>, u32>,
        BuildError,
    >(BuildError::Rejected))
    &&& r matches Ok(view) ==> maps_to_ordinals(view, folded(patterns))
}

} // verus!
