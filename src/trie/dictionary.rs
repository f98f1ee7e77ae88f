//! Dictionaries held as double-array tries.
use vstd::prelude::*;
use cedarwood::Cedar;
use crate::error::BuildError;
use crate::prepare::{built_from, keys_of, prepare_patterns, stored_key};
use crate::semantics::{
    hit, hits_at, last_hit, lemma_hits_at_bounds, lemma_hits_at_last, lemma_hits_at_shift,
    lemma_last_hit, reverse_keys, shift,
};
use crate::text::{distinct, folded, key_of, CharText};
use crate::trie::cedar::{build_trie, nul_free, prefix_search, trie_nul_free, trie_patterns, trie_view};
use crate::unmatched::spans_of;

verus! {

/// Largest number of patterns a trie can number.
pub const TRIE_MAX_PATTERNS: u64 = 0x8000_0000;

/// Every key of `m` is free of NUL characters.
pub open spec fn keys_nul_free(m: Map<Seq<char>, u32>) -> bool {
    forall|k: Seq<char>| #[trigger] m.contains_key(k) ==> nul_free(k)
}

/// Every case-folded pattern can be held by a trie: it is not empty and
/// holds no NUL character.
pub open spec fn trie_storable(patterns: Seq<&str>) -> bool {
    forall|i: int|
        0 <= i < patterns.len() ==> (#[trigger] folded(patterns)[i]).len() > 0 && nul_free(
            folded(patterns)[i],
        )
}

/// The first position from `i` on that holds a NUL character, or the end.
fn first_nul(cs: &Vec<char>, i: usize) -> (k: usize)
    requires
        i <= cs@.len(),
    ensures
        i <= k <= cs@.len(),
        forall|q: int| i <= q < k ==> cs@[q] != '\0',
        k < cs@.len() ==> cs@[k as int] == '\0',
{
    let mut k: usize = i;
    while k < cs.len() && cs[k] != '\0'
        invariant
            i <= k <= cs@.len(),
            forall|q: int| i <= q < k ==> cs@[q] != '\0',
        decreases cs@.len() - k,
    {
        k = k + 1;
    }
    k
}

/// Whether `s` holds a NUL character.
fn has_nul(s: &str) -> (r: bool)
    ensures
        r == !nul_free(s@),
{
    let chars = CharText::from_str(s);
    let k = first_nul(&chars.chars, 0);
    proof {
        if k < chars.chars@.len() {
            assert(s@[k as int] == '\0');
        } else {
            assert forall|q: int| 0 <= q < s@.len() implies s@[q] != '\0' by {}
        }
    }
    k < chars.chars.len()
}

proof fn lemma_reverse_storable(k: Seq<char>)
    ensures
        k.reverse().len() == k.len(),
        nul_free(k.reverse()) == nul_free(k),
{
    if !nul_free(k) {
        let q = choose|q: int| 0 <= q < k.len() && k[q] == '\0';
        assert(k.reverse()[k.len() - 1 - q] == '\0');
    }
    if !nul_free(k.reverse()) {
        let q = choose|q: int| 0 <= q < k.reverse().len() && k.reverse()[q] == '\0';
        assert(k[k.len() - 1 - q] == '\0');
    }
}

/// Over a text whose character `stop` is NUL (or whose end is `stop`), the
/// occurrences of NUL-free patterns are those of the text cut at `stop`.
proof fn lemma_hits_at_truncate(d: Map<Seq<char>, u32>, cs: Seq<char>, stop: int, i: int, j: int)
    requires
        keys_nul_free(d),
        0 <= i <= stop <= cs.len(),
        stop == cs.len() || cs[stop] == '\0',
    ensures
        hits_at(d, cs.take(stop), i, j) == hits_at(d, cs, i, j),
    decreases cs.len() + 1 - j,
{
    let c2 = cs.take(stop);
    if j > i && j <= cs.len() {
        lemma_hits_at_truncate(d, cs, stop, i, j + 1);
        if j <= stop {
            assert(c2.subrange(i, j) =~= cs.subrange(i, j));
        } else {
            let sub = cs.subrange(i, j);
            assert(sub[stop - i] == '\0');
            assert(!nul_free(sub));
            assert(!hit(d, cs, i, j));
            assert(hits_at(d, cs, i, j) =~= hits_at(d, cs, i, j + 1));
        }
    }
}

/// Builds the trie over the case-folded patterns, each reversed where
/// `reverse` holds.
fn build(patterns: &Vec<&str>, reverse: bool) -> (r: Result<Cedar, BuildError>)
    ensures
        0 < patterns@.len() <= TRIE_MAX_PATTERNS && distinct(folded(patterns@)) ==> (r is Ok
            <==> trie_storable(patterns@)),
        r matches Ok(t) ==> trie_nul_free(t) && keys_nul_free(trie_view(t)),
        built_from(
            patterns@,
            TRIE_MAX_PATTERNS as nat,
            match r {
                Ok(t) => Ok(
                    if reverse {
                        reverse_keys(trie_view(t))
                    } else {
                        trie_view(t)
                    },
                ),
                Err(e) => Err(e),
            },
        ),
{
    let prepared = prepare_patterns(patterns, reverse, TRIE_MAX_PATTERNS);
    let patvals = match prepared {
        Ok(pv) => pv,
        Err(e) => {
            return Err(e);
        },
    };
    proof {
        assert(0 < patterns@.len() <= TRIE_MAX_PATTERNS);
        assert(distinct(folded(patterns@)));
    }
    let mut i: usize = 0;
    while i < patvals.len()
        invariant
            0 < patterns@.len() <= TRIE_MAX_PATTERNS,
            distinct(folded(patterns@)),
            i <= patvals@.len(),
            patvals@.len() == patterns@.len(),
            forall|j: int|
                0 <= j < patvals@.len() ==> (#[trigger] patvals@[j]).0@ == stored_key(
                    folded(patterns@)[j],
                    reverse,
                ),
            forall|j: int| 0 <= j < i ==> (#[trigger] patvals@[j]).0@.len() > 0,
            forall|j: int| 0 <= j < i ==> nul_free(#[trigger] patvals@[j].0@),
        decreases patvals@.len() - i,
    {
        proof {
            lemma_reverse_storable(folded(patterns@)[i as int]);
        }
        if patvals[i].0.as_str().is_empty() || has_nul(patvals[i].0.as_str()) {
            proof {
                assert(!(folded(patterns@)[i as int].len() > 0 && nul_free(folded(patterns@)[i as int])));
            }
            return Err(BuildError::Rejected);
        }
        i = i + 1;
    }
    proof {
        assert forall|j: int| 0 <= j < patterns@.len() implies (#[trigger] folded(patterns@)[j]).len() > 0
            && nul_free(folded(patterns@)[j]) by {
            lemma_reverse_storable(folded(patterns@)[j]);
            assert(patvals@[j].0@.len() > 0 && nul_free(patvals@[j].0@));
        }
    }
    let ghost keys = folded(patterns@);
    let ghost pv = patvals@;
    let t = build_trie(&patvals);
    proof {
        let m = trie_view(t);
        let view = if reverse {
            reverse_keys(m)
        } else {
            m
        };
        assert forall|k: Seq<char>| view.contains_key(k) <==> exists|i: int|
            0 <= i < keys.len() && keys[i] == k by {
            let sk = stored_key(k, reverse);
            if view.contains_key(k) {
                assert(trie_patterns(t).contains_key(sk));
                let i = choose|i: int| 0 <= i < keys_of(pv).len() && keys_of(pv)[i] == sk;
                assert(pv[i].0@ == stored_key(keys[i], reverse));
                if reverse {
                    assert(keys[i] =~= keys[i].reverse().reverse());
                    assert(k =~= k.reverse().reverse());
                }
                assert(keys[i] == k);
            }
            if exists|i: int| 0 <= i < keys.len() && keys[i] == k {
                let i = choose|i: int| 0 <= i < keys.len() && keys[i] == k;
                assert(pv[i].0@ == stored_key(keys[i], reverse));
                assert(keys_of(pv)[i] == sk);
                assert(keys_of(pv).contains(sk));
            }
        }
        assert forall|i: int| 0 <= i < keys.len() implies #[trigger] view[keys[i]] == i by {
            assert(pv[i].0@ == stored_key(keys[i], reverse));
            assert(keys_of(pv)[i] == pv[i].0@);
            assert(keys_of(pv).contains(pv[i].0@));
            assert(trie_patterns(t).contains_key(pv[i].0@));
            assert(trie_patterns(t)[pv[i].0@] == pv[i].1 as i32);
            assert(view.contains_key(keys[i]));
        }
        assert forall|k: Seq<char>| #[trigger] m.contains_key(k) implies nul_free(k) by {
            assert(trie_patterns(t).contains_key(k));
            let j = choose|j: int| 0 <= j < keys_of(pv).len() && keys_of(pv)[j] == k;
            assert(pv[j].0@ == k);
        }
    }
    Ok(t)
}

/// The end of the longest pattern of `t` that starts at character `i` of
/// `cs`, with its ordinal; `i` itself where no pattern starts there.
fn longest_from(t: &Cedar, cs: &Vec<char>, i: usize) -> (r: (usize, u32))
    requires
        i <= cs@.len(),
        trie_nul_free(*t),
        keys_nul_free(trie_view(*t)),
    ensures
        r.0 == last_hit(trie_view(*t), cs@, i as int, cs@.len() as int),
        r.0 > i ==> r.1 == trie_view(*t)[cs@.subrange(i as int, r.0 as int)],
{
    let ghost d = trie_view(*t);
    proof {
        lemma_last_hit(d, cs@, i as int, cs@.len() as int);
    }
    if i == cs.len() {
        return (i, 0);
    }
    let stop = first_nul(cs, i);
    let hay = key_of(cs, i, stop);
    let ghost cut = cs@.take(stop as int);
    proof {
        assert(cut.subrange(i as int, cut.len() as int) =~= hay@);
        assert forall|q: int| 0 <= q < hay@.len() implies hay@[q] != '\0' by {
            assert(hay@[q] == cs@[i + q]);
        }
        lemma_hits_at_truncate(d, cs@, stop as int, i as int, i + 1);
    }
    let found = prefix_search(t, hay.as_str());
    let ghost h = hits_at(d, hay@, 0, 1);
    proof {
        lemma_hits_at_shift(d, cut, i as int, 1);
        lemma_hits_at_last(d, cs@, i as int, i + 1);
        lemma_hits_at_bounds(d, hay@, 0, 1);
        assert(shift(h, i as nat).len() == h.len());
    }
    if found.len() == 0 {
        return (i, 0);
    }
    let (v, last) = found[found.len() - 1];
    let hay_chars = CharText::from_str(hay.as_str());
    let ghost k = found@.len() - 1;
    proof {
        assert(h[k].end <= hay@.len());
        assert(hay_chars.offsets@[h[k].end as int] == last + 1);
    }
    let q = hay_chars.char_at_offset(last + 1);
    proof {
        if q != h[k].end {
            if q < h[k].end {
                crate::text::lemma_offset_strict(hay@, q as int, h[k].end as int);
            } else {
                crate::text::lemma_offset_strict(hay@, h[k].end as int, q as int);
            }
        }
        assert(shift(h, i as nat)[k] == hits_at(d, cs@, i as int, i + 1).last());
    }
    (i + q, v as u32)
}

/// Every pattern of `t` that starts at character `i` of `cs`, shortest
/// first, each `(start, end, ordinal)` in characters.
fn prefixes_at(t: &Cedar, cs: &Vec<char>, i: usize) -> (r: Vec<(usize, usize, u32)>)
    requires
        i < cs@.len(),
        trie_nul_free(*t),
        keys_nul_free(trie_view(*t)),
    ensures
        spans_of(r@) == hits_at(trie_view(*t), cs@, i as int, i + 1),
{
    let ghost d = trie_view(*t);
    let stop = first_nul(cs, i);
    let hay = key_of(cs, i, stop);
    let ghost cut = cs@.take(stop as int);
    proof {
        assert(cut.subrange(i as int, cut.len() as int) =~= hay@);
        assert forall|q: int| 0 <= q < hay@.len() implies hay@[q] != '\0' by {
            assert(hay@[q] == cs@[i + q]);
        }
        lemma_hits_at_truncate(d, cs@, stop as int, i as int, i + 1);
    }
    let found = prefix_search(t, hay.as_str());
    let hay_chars = CharText::from_str(hay.as_str());
    let ghost h = hits_at(d, hay@, 0, 1);
    proof {
        lemma_hits_at_shift(d, cut, i as int, 1);
        lemma_hits_at_bounds(d, hay@, 0, 1);
    }
    let n = cs.len();
    let mut out: Vec<(usize, usize, u32)> = Vec::new();
    let mut k: usize = 0;
    while k < found.len()
        invariant
            hay_chars.wf(),
            hay_chars.chars@ == hay@,
            hay@.len() <= cs@.len() - i,
            i < cs@.len(),
            n == cs@.len(),
            h == hits_at(d, hay@, 0, 1),
            d == trie_view(*t),
            found@.len() == h.len(),
            forall|q: int|
                0 <= q < found@.len() ==> (#[trigger] found@[q]).1 + 1 == crate::text::offset(
                    hay@,
                    h[q].end as int,
                ) && h[q].index == Some(found@[q].0 as u32),
            forall|q: int| 0 <= q < h.len() ==> (#[trigger] h[q]).start == 0 && h[q].start < h[q].end <= hay@.len(),
            k <= found@.len(),
            spans_of(out@) == shift(h, i as nat).take(k as int),
        decreases found@.len() - k,
    {
        let (v, last) = found[k];
        proof {
            assert(h[k as int].end <= hay@.len());
            assert(hay_chars.offsets@[h[k as int].end as int] == last + 1);
        }
        let q = hay_chars.char_at_offset(last + 1);
        proof {
            if q != h[k as int].end {
                if q < h[k as int].end {
                    crate::text::lemma_offset_strict(hay@, q as int, h[k as int].end as int);
                } else {
                    crate::text::lemma_offset_strict(hay@, h[k as int].end as int, q as int);
                }
            }
        }
        let ghost before = spans_of(out@);
        assert(i + q <= cs@.len());
        out.push((i, i + q, v as u32));
        proof {
            let sh = shift(h, i as nat);
            assert(sh.take(k + 1) =~= sh.take(k as int).push(sh[k as int]));
            assert(spans_of(out@) =~= before.push(sh[k as int]));
        }
        k = k + 1;
    }
    proof {
        assert(shift(h, i as nat).take(k as int) =~= shift(h, i as nat));
    }
    out
}

/// A dictionary for forward longest segmentation.
pub struct ForwardDictionary {
    dat: Cedar,
}

/// A dictionary for backward longest segmentation: its trie holds the
/// patterns reversed, and is searched over the reversed text.
pub struct BackwardDictionary {
    dat: Cedar,
}

impl View for ForwardDictionary {
    type V = Map<Seq<char>, u32>;

    closed spec fn view(&self) -> Map<Seq<char>, u32> {
        trie_view(self.dat)
    }
}

impl View for BackwardDictionary {
    type V = Map<Seq<char>, u32>;

    closed spec fn view(&self) -> Map<Seq<char>, u32> {
        reverse_keys(trie_view(self.dat))
    }
}

impl ForwardDictionary {
    #[verifier::type_invariant]
    spec fn inv(&self) -> bool {
        trie_nul_free(self.dat) && keys_nul_free(trie_view(self.dat))
    }

    /// Builds a dictionary whose pattern `i` is `patterns[i]` case-folded.
    /// Distinct patterns are refused only where one is empty or holds a NUL
    /// character, which a trie cannot store.
    pub fn new(patterns: Vec<&str>) -> (r: Result<Self, BuildError>)
        ensures
            built_from(
                patterns@,
                TRIE_MAX_PATTERNS as nat,
                match r {
                    Ok(d) => Ok(d@),
                    Err(e) => Err(e),
                },
            ),
            0 < patterns@.len() <= TRIE_MAX_PATTERNS && distinct(folded(patterns@)) ==> (r is Ok
                <==> trie_storable(patterns@)),
    {
        match build(&patterns, false) {
            Ok(dat) => Ok(ForwardDictionary { dat }),
            Err(e) => Err(e),
        }
    }

    pub(crate) fn longest_from(&self, cs: &Vec<char>, i: usize) -> (r: (usize, u32))
        requires
            i <= cs@.len(),
        ensures
            r.0 == last_hit(self@, cs@, i as int, cs@.len() as int),
            r.0 > i ==> r.1 == self@[cs@.subrange(i as int, r.0 as int)],
    {
        proof {
            use_type_invariant(self);
        }
        longest_from(&self.dat, cs, i)
    }

    pub(crate) fn prefixes_at(&self, cs: &Vec<char>, i: usize) -> (r: Vec<(usize, usize, u32)>)
        requires
            i < cs@.len(),
        ensures
            spans_of(r@) == hits_at(self@, cs@, i as int, i + 1),
    {
        proof {
            use_type_invariant(self);
        }
        prefixes_at(&self.dat, cs, i)
    }
}

impl BackwardDictionary {
    #[verifier::type_invariant]
    spec fn inv(&self) -> bool {
        trie_nul_free(self.dat) && keys_nul_free(trie_view(self.dat))
    }

    /// Builds a dictionary whose pattern `i` is `patterns[i]` case-folded.
    /// Distinct patterns are refused only where one is empty or holds a NUL
    /// character, which a trie cannot store.
    pub fn new(patterns: Vec<&str>) -> (r: Result<Self, BuildError>)
        ensures
            built_from(
                patterns@,
                TRIE_MAX_PATTERNS as nat,
                match r {
                    Ok(d) => Ok(d@),
                    Err(e) => Err(e),
                },
            ),
            0 < patterns@.len() <= TRIE_MAX_PATTERNS && distinct(folded(patterns@)) ==> (r is Ok
                <==> trie_storable(patterns@)),
    {
        match build(&patterns, true) {
            Ok(dat) => Ok(BackwardDictionary { dat }),
            Err(e) => Err(e),
        }
    }

    /// The patterns as the trie holds them, reversed.
    pub closed spec fn spec_stored(&self) -> Map<Seq<char>, u32> {
        trie_view(self.dat)
    }

    pub proof fn lemma_stored(&self)
        ensures
            reverse_keys(self.spec_stored()) == self@,
    {
    }

    /// Over `cs`, meant to be a reversed text, the end of the longest stored
    /// (reversed) pattern that starts at character `i`, with its ordinal.
    pub(crate) fn reversed_longest_from(&self, cs: &Vec<char>, i: usize) -> (r: (usize, u32))
        requires
            i <= cs@.len(),
        ensures
            r.0 == last_hit(self.spec_stored(), cs@, i as int, cs@.len() as int),
            r.0 > i ==> r.1 == self.spec_stored()[cs@.subrange(i as int, r.0 as int)],
    {
        proof {
            use_type_invariant(self);
        }
        longest_from(&self.dat, cs, i)
    }
}

} // verus!
