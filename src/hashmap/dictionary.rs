//! A dictionary held as a hash map from case-folded pattern to ordinal.
use vstd::prelude::*;
use vstd::hash_map::StringHashMap;
use crate::error::BuildError;
use crate::prepare::built_from;
use crate::semantics::{first_hit, hit, last_hit};
use crate::text::{distinct, folded, key_of, lowercase, maps_to_ordinals, push_char, MAX_PATTERNS};

verus! {


pub struct Dictionary {
    pub(crate) map: StringHashMap<u32>,
}

impl View for Dictionary {
    type V = Map<Seq<char>, u32>;

    closed spec fn view(&self) -> Map<Seq<char>, u32> {
        self.map@
    }
}

impl Dictionary {
    pub(crate) fn lookup(&self, key: &str) -> (r: Option<u32>)
        ensures
            r is Some <==> self@.contains_key(key@),
            r matches Some(v) ==> v == self@[key@],
    {
        match self.map.get(key) {
            Some(v) => Some(*v),
            None => None,
        }
    }

    /// The end of the longest pattern that starts at character `i` of `cs`,
    /// with its ordinal; `i` itself where no pattern starts there.
    pub(crate) fn longest_from(&self, cs: &Vec<char>, i: usize) -> (r: (usize, u32))
        requires
            i <= cs@.len(),
        ensures
            r.0 == last_hit(self@, cs@, i as int, cs@.len() as int),
            r.0 > i ==> r.1 == self@[cs@.subrange(i as int, r.0 as int)],
    {
        let mut key = String::new();
        let mut best: usize = i;
        let mut value: u32 = 0;
        let mut j: usize = i;
        proof {
            assert(key@ =~= cs@.subrange(i as int, i as int));
        }
        while j < cs.len()
            invariant
                i <= j <= cs@.len(),
                key@ == cs@.subrange(i as int, j as int),
                best == last_hit(self@, cs@, i as int, j as int),
                best > i ==> value == self@[cs@.subrange(i as int, best as int)],
            decreases cs@.len() - j,
        {
            push_char(&mut key, cs[j]);
            j = j + 1;
            proof {
                assert(key@ =~= cs@.subrange(i as int, j as int));
            }
            match self.lookup(key.as_str()) {
                Some(v) => {
                    best = j;
                    value = v;
                },
                None => {},
            }
        }
        (best, value)
    }

    /// The start of the longest pattern that ends at character `j` of `cs`,
    /// with its ordinal; `j` itself where no pattern ends there.
    pub(crate) fn longest_to(&self, cs: &Vec<char>, j: usize) -> (r: (usize, u32))
        requires
            j <= cs@.len(),
        ensures
            r.0 == first_hit(self@, cs@, 0, j as int),
            r.0 < j ==> r.1 == self@[cs@.subrange(r.0 as int, j as int)],
    {
        let mut k: usize = 0;
        while k < j
            invariant
                k <= j <= cs@.len(),
                first_hit(self@, cs@, 0, j as int) == first_hit(self@, cs@, k as int, j as int),
            decreases j - k,
        {
            let key = key_of(cs, k, j);
            match self.lookup(key.as_str()) {
                Some(v) => {
                    return (k, v);
                },
                None => {},
            }
            k = k + 1;
        }
        (j, 0)
    }

    /// Builds a dictionary whose pattern `i` is `patterns[i]` case-folded.
    /// Any pattern is accepted, the empty one included.
    pub fn new(patterns: Vec<&str>) -> (r: Result<Self, BuildError>)
        ensures
            built_from(
                patterns@,
                MAX_PATTERNS as nat,
                match r {
                    Ok(d) => Ok(d@),
                    Err(e) => Err(e),
                },
            ),
            r != Err::<Self, BuildError>(BuildError::Rejected),
    {
        if patterns.len() == 0 {
            return Err(BuildError::EmptyPatternSet);
        }
        if patterns.len() as u64 > MAX_PATTERNS {
            return Err(BuildError::IndexOverflow);
        }
        let ghost keys = folded(patterns@);
        let mut map: StringHashMap<u32> = StringHashMap::new();
        let mut i: usize = 0;
        while i < patterns.len()
            invariant
                keys == folded(patterns@),
                patterns@.len() <= MAX_PATTERNS,
                0 <= i <= patterns@.len(),
                distinct(keys.take(i as int)),
                maps_to_ordinals(map@, keys.take(i as int)),
            decreases patterns@.len() - i,
        {
            let key = lowercase(patterns[i]);
            proof {
                assert(key@ == keys[i as int]);
            }
            if map.contains_key(key.as_str()) {
                proof {
                    let j = choose|j: int| 0 <= j < i && keys.take(i as int)[j] == key@;
                    assert(keys[j] == keys[i as int]);
                }
                return Err(BuildError::DuplicatePattern);
            }
            map.insert(key, i as u32);
            proof {
                let t = keys.take(i + 1);
                assert(t =~= keys.take(i as int).push(key@));
                assert forall|k: Seq<char>| map@.contains_key(k) <==> exists|j: int|
                    0 <= j < t.len() && t[j] == k by {
                    if k == key@ {
                        assert(t[i as int] == k);
                    }
                    if map@.contains_key(k) && k != key@ {
                        let j = choose|j: int| 0 <= j < i && keys.take(i as int)[j] == k;
                        assert(t[j] == k);
                    }
                    if exists|j: int| 0 <= j < t.len() && t[j] == k {
                        let j = choose|j: int| 0 <= j < t.len() && t[j] == k;
                        if j < i {
                            assert(keys.take(i as int)[j] == k);
                        }
                    }
                }
                assert forall|j: int| 0 <= j < t.len() implies #[trigger] map@[t[j]] == j by {
                    if j < i {
                        assert(keys.take(i as int)[j] == t[j]);
                        assert(t[j] != key@);
                    }
                }
            }
            i = i + 1;
        }
        proof {
            assert(keys.take(i as int) =~= keys);
        }
        Ok(Dictionary { map })
    }
}

} // verus!
