//! Dictionaries held as double-array Aho-Corasick automata.
use vstd::prelude::*;
use daachorse::CharwiseDoubleArrayAhoCorasick;
use crate::automaton::acdat::{
    at_offsets, automaton_builds, automaton_leftmost_longest, automaton_patterns, build_automaton,
    find_leftmost_longest, find_overlapping,
};
use crate::error::BuildError;
use crate::prepare::{built_from, keys_of, prepare_patterns, stored_key};
use crate::semantics::{forward_from, occurrences_by_end, reverse_keys};
use crate::text::{distinct, folded, MAX_PATTERNS};

verus! {

/// The keys under which the patterns are stored.
pub open spec fn stored_keys(patterns: Seq<&str>, reverse: bool) -> Seq<Seq<char>> {
    folded(patterns).map_values(|k: Seq<char>| stored_key(k, reverse))
}

/// Some case-folded pattern is empty.
pub open spec fn has_empty(patterns: Seq<&str>) -> bool {
    exists|i: int| 0 <= i < patterns.len() && (#[trigger] folded(patterns)[i]).len() == 0
}

/// Builds the automaton over the case-folded patterns, each reversed where
/// `reverse` holds.
fn build(patterns: &Vec<&str>, reverse: bool, leftmost_longest: bool) -> (r: Result<
    CharwiseDoubleArrayAhoCorasick<u32>,
    BuildError,
>)
    ensures
        built_from(
            patterns@,
            MAX_PATTERNS as nat,
            match r {
                Ok(a) => Ok(
                    if reverse {
                        reverse_keys(automaton_patterns(a))
                    } else {
                        automaton_patterns(a)
                    },
                ),
                Err(e) => Err(e),
            },
        ),
        r matches Ok(a) ==> automaton_leftmost_longest(a) == leftmost_longest,
        0 < patterns@.len() <= MAX_PATTERNS && distinct(folded(patterns@)) ==> (r is Ok
            <==> automaton_builds(stored_keys(patterns@, reverse), leftmost_longest)),
        0 < patterns@.len() <= MAX_PATTERNS && distinct(folded(patterns@)) && has_empty(
            patterns@,
        ) ==> r == Err::<CharwiseDoubleArrayAhoCorasick<u32>, BuildError>(BuildError::Rejected),
{
    let patvals = match prepare_patterns(patterns, reverse, MAX_PATTERNS) {
        Ok(pv) => pv,
        Err(e) => {
            return Err(e);
        },
    };
    let ghost keys = folded(patterns@);
    let ghost pv = patvals@;
    proof {
        assert(keys_of(pv) =~= stored_keys(patterns@, reverse));
        if has_empty(patterns@) {
            let i = choose|i: int| 0 <= i < patterns@.len() && (#[trigger] folded(patterns@)[i]).len() == 0;
            assert(pv[i].0@ == stored_key(keys[i], reverse));
            if reverse {
                assert(keys[i].reverse().len() == 0);
            }
        }
    }
    match build_automaton(patvals, leftmost_longest) {
        Ok(a) => {
            proof {
                let m = automaton_patterns(a);
                let view = if reverse {
                    reverse_keys(m)
                } else {
                    m
                };
                assert forall|k: Seq<char>| view.contains_key(k) <==> exists|i: int|
                    0 <= i < keys.len() && keys[i] == k by {
                    let sk = stored_key(k, reverse);
                    if view.contains_key(k) {
                        assert(m.contains_key(sk));
                        assert(keys_of(pv).contains(sk));
                        let i = choose|i: int| 0 <= i < keys_of(pv).len() && keys_of(pv)[i] == sk;
                        assert(pv[i].0@ == stored_key(keys[i], reverse));
                        if reverse {
                            assert(keys[i] =~= keys[i].reverse().reverse());
                            assert(k =~= k.reverse().reverse());
                        }
                        assert(keys[i] == k);
                    }
                    if exists|i: int| 0 <= i < keys.len() && keys[i] == k {
                        let i = choose|i: int| 0 <= i < keys.len() && keys[i] == k;
                        assert(pv[i].0@ == stored_key(keys[i], reverse));
                        assert(keys_of(pv)[i] == sk);
                        assert(keys_of(pv).contains(sk));
                    }
                }
                assert forall|i: int| 0 <= i < keys.len() implies #[trigger] view[keys[i]] == i by {
                    assert(pv[i].0@ == stored_key(keys[i], reverse));
                    assert(keys_of(pv)[i] == pv[i].0@);
                    assert(keys_of(pv).contains(pv[i].0@));
                    assert(m.contains_key(pv[i].0@));
                    assert(m[pv[i].0@] == pv[i].1);
                    assert(view.contains_key(keys[i]));
                }
            }
            Ok(a)
        },
        Err(_) => Err(BuildError::Rejected),
    }
}

/// A dictionary for fully segmentation: its automaton reports every
/// occurrence of every pattern.
pub struct StandardDictionary {
    acdat: CharwiseDoubleArrayAhoCorasick<u32>,
}

/// A dictionary for forward longest segmentation.
pub struct ForwardDictionary {
    acdat: CharwiseDoubleArrayAhoCorasick<u32>,
}

/// A dictionary for backward longest segmentation: its automaton holds the
/// patterns reversed, and runs over the reversed text.
pub struct BackwardDictionary {
    acdat: CharwiseDoubleArrayAhoCorasick<u32>,
}

impl View for StandardDictionary {
    type V = Map<Seq<char>, u32>;

    closed spec fn view(&self) -> Map<Seq<char>, u32> {
        automaton_patterns(self.acdat)
    }
}

impl View for ForwardDictionary {
    type V = Map<Seq<char>, u32>;

    closed spec fn view(&self) -> Map<Seq<char>, u32> {
        automaton_patterns(self.acdat)
    }
}

impl View for BackwardDictionary {
    type V = Map<Seq<char>, u32>;

    closed spec fn view(&self) -> Map<Seq<char>, u32> {
        reverse_keys(automaton_patterns(self.acdat))
    }
}

impl StandardDictionary {
    #[verifier::type_invariant]
    spec fn inv(&self) -> bool {
        !automaton_leftmost_longest(self.acdat)
    }

    /// Builds a dictionary whose pattern `i` is `patterns[i]` case-folded.
    /// Distinct patterns are refused only where the automaton cannot be built
    /// from them: an empty pattern, or more states than it can address.
    pub fn new(patterns: Vec<&str>) -> (r: Result<Self, BuildError>)
        ensures
            built_from(
                patterns@,
                MAX_PATTERNS as nat,
                match r {
                    Ok(d) => Ok(d@),
                    Err(e) => Err(e),
                },
            ),
            0 < patterns@.len() <= MAX_PATTERNS && distinct(folded(patterns@)) ==> (r is Ok
                <==> automaton_builds(stored_keys(patterns@, false), false)),
            0 < patterns@.len() <= MAX_PATTERNS && distinct(folded(patterns@)) && has_empty(
                patterns@,
            ) ==> r == Err::<Self, BuildError>(BuildError::Rejected),
    {
        match build(&patterns, false, false) {
            Ok(acdat) => Ok(StandardDictionary { acdat }),
            Err(e) => Err(e),
        }
    }

    /// Every occurrence in `haystack`, in byte offsets, by end and, at one
    /// end, longest first.
    pub(crate) fn occurrences(&self, haystack: &str) -> (r: Vec<(usize, usize, u32)>)
        ensures
            at_offsets(r@, haystack@, occurrences_by_end(self@, haystack@, 1)),
    {
        proof {
            use_type_invariant(self);
        }
        find_overlapping(&self.acdat, haystack)
    }
}

impl ForwardDictionary {
    #[verifier::type_invariant]
    spec fn inv(&self) -> bool {
        automaton_leftmost_longest(self.acdat)
    }

    /// Builds a dictionary whose pattern `i` is `patterns[i]` case-folded.
    /// Distinct patterns are refused only where the automaton cannot be built
    /// from them: an empty pattern, or more states than it can address.
    pub fn new(patterns: Vec<&str>) -> (r: Result<Self, BuildError>)
        ensures
            built_from(
                patterns@,
                MAX_PATTERNS as nat,
                match r {
                    Ok(d) => Ok(d@),
                    Err(e) => Err(e),
                },
            ),
            0 < patterns@.len() <= MAX_PATTERNS && distinct(folded(patterns@)) ==> (r is Ok
                <==> automaton_builds(stored_keys(patterns@, false), true)),
            0 < patterns@.len() <= MAX_PATTERNS && distinct(folded(patterns@)) && has_empty(
                patterns@,
            ) ==> r == Err::<Self, BuildError>(BuildError::Rejected),
    {
        match build(&patterns, false, true) {
            Ok(acdat) => Ok(ForwardDictionary { acdat }),
            Err(e) => Err(e),
        }
    }

    /// The forward longest matches in `haystack`, in byte offsets.
    pub(crate) fn longest_matches(&self, haystack: &str) -> (r: Vec<(usize, usize, u32)>)
        ensures
            at_offsets(r@, haystack@, forward_from(self@, haystack@, 0)),
    {
        proof {
            use_type_invariant(self);
        }
        find_leftmost_longest(&self.acdat, haystack)
    }
}

impl BackwardDictionary {
    #[verifier::type_invariant]
    spec fn inv(&self) -> bool {
        automaton_leftmost_longest(self.acdat)
    }

    /// Builds a dictionary whose pattern `i` is `patterns[i]` case-folded.
    /// Distinct patterns are refused only where the automaton cannot be built
    /// from them: an empty pattern, or more states than it can address.
    pub fn new(patterns: Vec<&str>) -> (r: Result<Self, BuildError>)
        ensures
            built_from(
                patterns@,
                MAX_PATTERNS as nat,
                match r {
                    Ok(d) => Ok(d@),
                    Err(e) => Err(e),
                },
            ),
            0 < patterns@.len() <= MAX_PATTERNS && distinct(folded(patterns@)) ==> (r is Ok
                <==> automaton_builds(stored_keys(patterns@, true), true)),
            0 < patterns@.len() <= MAX_PATTERNS && distinct(folded(patterns@)) && has_empty(
                patterns@,
            ) ==> r == Err::<Self, BuildError>(BuildError::Rejected),
    {
        match build(&patterns, true, true) {
            Ok(acdat) => Ok(BackwardDictionary { acdat }),
            Err(e) => Err(e),
        }
    }

    /// The forward longest matches of the reversed patterns in `reversed`,
    /// which is meant to be a reversed text, in byte offsets.
    pub(crate) fn reversed_longest_matches(&self, reversed: &str) -> (r: Vec<(usize, usize, u32)>)
        ensures
            reverse_keys(self.spec_stored()) == self@,
            at_offsets(r@, reversed@, forward_from(self.spec_stored(), reversed@, 0)),
    {
        proof {
            use_type_invariant(self);
        }
        find_leftmost_longest(&self.acdat, reversed)
    }

    /// The patterns as the automaton holds them, reversed.
    pub closed spec fn spec_stored(&self) -> Map<Seq<char>, u32> {
        automaton_patterns(self.acdat)
    }
}

} // verus!
