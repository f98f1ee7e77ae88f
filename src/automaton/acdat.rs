//! The double-array Aho-Corasick automaton of the `daachorse` crate, as the
//! library relies on it.
use vstd::prelude::*;
use daachorse::errors::DaachorseError;
use daachorse::{CharwiseDoubleArrayAhoCorasick, CharwiseDoubleArrayAhoCorasickBuilder, MatchKind};
use crate::prepare::keys_of;
use crate::semantics::{forward_from, occurrences_by_end};
use crate::text::offset;
use crate::unmatched::Span;

verus! {

#[verifier::external_type_specification]
#[verifier::external_body]
#[verifier::reject_recursive_types(V)]
pub struct ExCharwiseDoubleArrayAhoCorasick<V>(daachorse::CharwiseDoubleArrayAhoCorasick<V>);

#[verifier::external_type_specification]
#[verifier::external_body]
pub struct ExDaachorseError(daachorse::errors::DaachorseError);

/// The patterns an automaton holds, each with the value it reports.
pub uninterp spec fn automaton_patterns(a: CharwiseDoubleArrayAhoCorasick<u32>) -> Map<
    Seq<char>,
    u32,
>;

/// Whether an automaton was built for leftmost-longest search rather than
/// for the standard search of every occurrence.
pub uninterp spec fn automaton_leftmost_longest(a: CharwiseDoubleArrayAhoCorasick<u32>) -> bool;

/// Whether `build_with_values` builds an automaton from these keys, in
/// this order, for the given match kind; it does not depend on the values.
pub uninterp spec fn automaton_builds(keys: Seq<Seq<char>>, leftmost_longest: bool) -> bool;

/// `r` lists the spans `ss` of the characters `cs` as `(start, end, value)`
/// in byte offsets.
pub open spec fn at_offsets(r: Seq<(usize, usize, u32)>, cs: Seq<char>, ss: Seq<Span>) -> bool {
    &&& r.len() == ss.len()
    &&& forall|k: int|
        0 <= k < r.len() ==> (#[trigger] r[k]).0 == offset(cs, ss[k].start as int) && r[k].1
            == offset(cs, ss[k].end as int) && ss[k].index == Some(r[k].2)
}

/// Relies on `CharwiseDoubleArrayAhoCorasickBuilder::match_kind` and
/// `build_with_values`: a built automaton holds exactly the given patterns,
/// each with its value, and searches in the given match kind. Whether it
/// builds depends on the keys and the kind; an empty key is refused.
#[verifier::external_body]
pub(crate) fn build_automaton(patvals: Vec<(String, u32)>, leftmost_longest: bool) -> (r: Result<
    CharwiseDoubleArrayAhoCorasick<u32>,
    DaachorseError,
>)
    ensures
        r is Ok <==> automaton_builds(keys_of(patvals@), leftmost_longest),
        (exists|i: int| 0 <= i < patvals@.len() && (#[trigger] patvals@[i]).0@.len() == 0) ==> r is Err,
        r matches Ok(a) ==> {
            &&& automaton_leftmost_longest(a) == leftmost_longest
            &&& forall|k: Seq<char>| #[trigger]
                automaton_patterns(a).contains_key(k) <==> keys_of(patvals@).contains(k)
            &&& forall|i: int|
                0 <= i < patvals@.len() ==> automaton_patterns(a)[#[trigger] patvals@[i].0@]
                    == patvals@[i].1
        },
{
    let kind = if leftmost_longest {
        MatchKind::LeftmostLongest
    } else {
        MatchKind::Standard
    };
    CharwiseDoubleArrayAhoCorasickBuilder::new().match_kind(kind).build_with_values(patvals)
}

/// Relies on `CharwiseDoubleArrayAhoCorasick::find_overlapping_iter`: every
/// occurrence of every pattern, by end and, at one end, longest first.
#[verifier::external_body]
pub(crate) fn find_overlapping(a: &CharwiseDoubleArrayAhoCorasick<u32>, haystack: &str) -> (r: Vec<
    (usize, usize, u32),
>)
    requires
        !automaton_leftmost_longest(*a),
    ensures
        at_offsets(r@, haystack@, occurrences_by_end(automaton_patterns(*a), haystack@, 1)),
{
    a.find_overlapping_iter(haystack).map(|m| (m.start(), m.end(), m.value())).collect()
}

/// Relies on `CharwiseDoubleArrayAhoCorasick::leftmost_find_iter`: from
/// each position on, the next leftmost occurrence, the longest of those
/// starting there, the search going on from its end.
#[verifier::external_body]
pub(crate) fn find_leftmost_longest(a: &CharwiseDoubleArrayAhoCorasick<u32>, haystack: &str) -> (r:
    Vec<(usize, usize, u32)>)
    requires
        automaton_leftmost_longest(*a),
    ensures
        at_offsets(r@, haystack@, forward_from(automaton_patterns(*a), haystack@, 0)),
{
    a.leftmost_find_iter(haystack).map(|m| (m.start(), m.end(), m.value())).collect()
}

} // verus!
