//! The character model of a text: its case-folded characters and the byte
//! offset at which each of them starts.
use vstd::prelude::*;
use vstd::std_specs::iter::IteratorSpec;
use vstd::string::StringSliceAdditionalSpecFns;
use vstd::utf8::{char_is_scalar, encode_scalar, encode_utf8};

verus! {

/// What `str::to_lowercase` makes of a sequence of characters.
pub uninterp spec fn lower_of(s: Seq<char>) -> Seq<char>;

/// Relies on `str::to_lowercase`: the result depends on the characters alone.
#[verifier::external_body]
pub(crate) fn lowercase(s: &str) -> (r: String)
    ensures
        r@ == lower_of(s@),
{
    s.to_lowercase()
}

/// Number of bytes in the UTF-8 encoding of `c`.
pub open spec fn width(c: char) -> nat {
    encode_scalar(c as u32).len()
}

/// Byte offset at which character `i` of `cs` starts in its UTF-8 encoding.
pub open spec fn offset(cs: Seq<char>, i: int) -> nat {
    encode_utf8(cs.take(i)).len()
}

pub proof fn lemma_encode_concat(a: Seq<char>, b: Seq<char>)
    ensures
        encode_utf8(a + b) == encode_utf8(a) + encode_utf8(b),
    decreases a.len(),
{
    if a.len() == 0 {
        assert(a + b =~= b);
        assert(encode_utf8(a) + encode_utf8(b) =~= encode_utf8(b));
    } else {
        assert((a + b).drop_first() =~= a.drop_first() + b);
        lemma_encode_concat(a.drop_first(), b);
        assert(encode_utf8(a + b) =~= encode_utf8(a) + encode_utf8(b));
    }
}

pub proof fn lemma_offset_step(cs: Seq<char>, i: int)
    requires
        0 <= i < cs.len(),
    ensures
        offset(cs, i + 1) == offset(cs, i) + width(cs[i]),
{
    assert(cs.take(i + 1) =~= cs.take(i) + seq![cs[i]]);
    lemma_encode_concat(cs.take(i), seq![cs[i]]);
    assert(seq![cs[i]].drop_first() =~= Seq::<char>::empty());
    assert(encode_utf8(Seq::<char>::empty()) =~= Seq::<u8>::empty());
    assert(encode_utf8(seq![cs[i]]) =~= encode_scalar(cs[i] as u32) + encode_utf8(
        Seq::<char>::empty(),
    ));
}

pub proof fn lemma_offset_monotone(cs: Seq<char>, i: int, j: int)
    requires
        0 <= i <= j <= cs.len(),
    ensures
        offset(cs, i) <= offset(cs, j),
        offset(cs, j) <= encode_utf8(cs).len(),
{
    assert(cs.take(j) =~= cs.take(i) + cs.subrange(i, j));
    lemma_encode_concat(cs.take(i), cs.subrange(i, j));
    assert(cs =~= cs.take(j) + cs.subrange(j, cs.len() as int));
    lemma_encode_concat(cs.take(j), cs.subrange(j, cs.len() as int));
}

/// Equal to `char::len_utf8`.
pub fn char_width(c: char) -> (w: usize)
    ensures
        w == width(c),
        1 <= w <= 4,
{
    proof {
        char_is_scalar(c);
    }
    let v = c as u32;
    if v < 0x80 {
        1
    } else if v < 0x800 {
        2
    } else if v < 0x10000 {
        3
    } else {
        4
    }
}

/// A text as the matching algorithms see it: its characters, and for each
/// character position (the end included) its byte offset.
pub struct CharText {
    pub chars: Vec<char>,
    pub offsets: Vec<usize>,
}

impl CharText {
    pub open spec fn wf(&self) -> bool {
        &&& self.offsets@.len() == self.chars@.len() + 1
        &&& forall|i: int|
            0 <= i <= self.chars@.len() ==> #[trigger] self.offsets@[i] == offset(
                self.chars@,
                i,
            )
    }

    pub open spec fn len(&self) -> nat {
        self.chars@.len()
    }

    /// Splits `s` into characters and records their byte offsets.
    pub fn from_str(s: &str) -> (r: CharText)
        ensures
            r.wf(),
            r.chars@ == s@,
    {
        let total = s.as_bytes().len();
        proof {
            vstd::utf8::encode_utf8_valid_utf8(s@);
        }
        let mut chars: Vec<char> = Vec::new();
        let mut offsets: Vec<usize> = Vec::new();
        let mut pos: usize = 0;
        offsets.push(0);
        proof {
            assert(s@.take(0) =~= Seq::<char>::empty());
        }
        let mut it = s.chars();
        loop
            invariant
                it.remaining() == s@.skip(chars@.len() as int),
                chars@ == s@.take(chars@.len() as int),
                chars@.len() <= s@.len(),
                offsets@.len() == chars@.len() + 1,
                pos == offset(s@, chars@.len() as int),
                total == encode_utf8(s@).len(),
                forall|i: int|
                    0 <= i <= chars@.len() ==> #[trigger] offsets@[i] == offset(s@, i),
            ensures
                chars@ == s@,
                offsets@.len() == chars@.len() + 1,
                forall|i: int|
                    0 <= i <= chars@.len() ==> #[trigger] offsets@[i] == offset(s@, i),
            decreases s@.len() - chars@.len(),
        {
            let next = it.next();
            match next {
                Some(c) => {
                    let ghost k = chars@.len() as int;
                    proof {
                        lemma_offset_step(s@, k);
                        lemma_offset_monotone(s@, k + 1, s@.len() as int);
                    }
                    let w = char_width(c);
                    pos = pos + w;
                    chars.push(c);
                    offsets.push(pos);
                    proof {
                        assert(chars@ =~= s@.take(k + 1));
                        assert(s@.skip(k).drop_first() =~= s@.skip(k + 1));
                    }
                },
                None => {
                    proof {
                        assert(it.remaining().len() == 0);
                        assert(s@.skip(chars@.len() as int).len() == 0);
                        assert(chars@ =~= s@);
                    }
                    break;
                },
            }
        }
        CharText { chars, offsets }
    }
}

} // verus!

verus! {

/// Relies on `String::push`: appends one character.
#[verifier::external_body]
pub(crate) fn push_char(s: &mut String, c: char)
    ensures
        final(s)@ == old(s)@.push(c),
{
    s.push(c)
}

/// The case-folded form of each pattern.
pub open spec fn folded(patterns: Seq<&str>) -> Seq<Seq<char>> {
    patterns.map_values(|p: &str| lower_of(p@))
}

/// No two keys are equal.
pub open spec fn distinct(keys: Seq<Seq<char>>) -> bool {
    forall|i: int, j: int| 0 <= i < j < keys.len() ==> keys[i] != keys[j]
}

/// `m` maps each key to its position in `keys`, and holds nothing else.
pub open spec fn maps_to_ordinals(m: Map<Seq<char>, u32>, keys: Seq<Seq<char>>) -> bool {
    &&& forall|k: Seq<char>| m.contains_key(k) <==> exists|i: int| 0 <= i < keys.len() && keys[i] == k
    &&& forall|i: int| 0 <= i < keys.len() ==> #[trigger] m[keys[i]] == i
}

/// Largest number of patterns a dictionary can number.
pub const MAX_PATTERNS: u64 = 0x1_0000_0000;

} // verus!

verus! {

/// Characters `i..j` of `cs` as a string.
pub(crate) fn key_of(cs: &Vec<char>, i: usize, j: usize) -> (r: String)
    requires
        i <= j <= cs@.len(),
    ensures
        r@ == cs@.subrange(i as int, j as int),
{
    let mut key = String::new();
    let mut k: usize = i;
    while k < j
        invariant
            i <= k <= j <= cs@.len(),
            key@ == cs@.subrange(i as int, k as int),
        decreases j - k,
    {
        push_char(&mut key, cs[k]);
        k = k + 1;
        proof {
            assert(key@ =~= cs@.subrange(i as int, k as int));
        }
    }
    key
}

} // verus!

verus! {

pub proof fn lemma_offset_strict(cs: Seq<char>, i: int, j: int)
    requires
        0 <= i < j <= cs.len(),
    ensures
        offset(cs, i) < offset(cs, j),
    decreases j - i,
{
    lemma_offset_step(cs, i);
    char_is_scalar(cs[i]);
    assert(width(cs[i]) >= 1);
    if i + 1 < j {
        lemma_offset_strict(cs, i + 1, j);
    }
}

impl CharText {
    /// The character position whose byte offset is `b`.
    pub fn char_at_offset(&self, b: usize) -> (c: usize)
        requires
            self.wf(),
            exists|k: int| 0 <= k <= self.len() && offset(self.chars@, k) == b,
        ensures
            c <= self.len(),
            offset(self.chars@, c as int) == b,
    {
        let ghost k = choose|k: int| 0 <= k <= self.len() && offset(self.chars@, k) == b;
        let mut c: usize = 0;
        while c < self.chars.len() && self.offsets[c] < b
            invariant
                self.wf(),
                0 <= k <= self.len(),
                offset(self.chars@, k) == b,
                c <= self.len(),
                c <= k,
            decreases self.len() - c,
        {
            proof {
                if c == k {
                    assert(self.offsets@[c as int] == b);
                }
            }
            c = c + 1;
        }
        proof {
            if c < k {
                lemma_offset_strict(self.chars@, c as int, k);
                assert(self.offsets@[c as int] == offset(self.chars@, c as int));
            }
        }
        c
    }
}

/// The characters of `s` in reverse order.
pub(crate) fn reversed(s: &Vec<char>) -> (r: String)
    ensures
        r@ == s@.reverse(),
{
    let mut out = String::new();
    let mut k: usize = s.len();
    proof {
        assert(out@ =~= s@.subrange(k as int, s@.len() as int).reverse());
    }
    while k > 0
        invariant
            k <= s@.len(),
            out@ == s@.subrange(k as int, s@.len() as int).reverse(),
        decreases k,
    {
        k = k - 1;
        push_char(&mut out, s[k]);
        proof {
            assert(out@ =~= s@.subrange(k as int, s@.len() as int).reverse());
        }
    }
    proof {
        assert(s@.subrange(0, s@.len() as int) =~= s@);
    }
    out
}

} // verus!
