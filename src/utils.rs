//! Splitting a text into one range per character.
use vstd::prelude::*;
use crate::text::{offset, CharText, lemma_offset_monotone};
use crate::text_range::TextRange;

verus! {

/// The byte range of each character of `text`, in order.
pub fn split_as_char_ranges(text: &str) -> (r: Vec<TextRange>)
    ensures
        r@.len() == text@.len(),
        forall|i: int|
            0 <= i < r@.len() ==> (#[trigger] r@[i]).start() == offset(text@, i) && r@[i].end()
                == offset(text@, i + 1),
{
    let chars = CharText::from_str(text);
    let mut out: Vec<TextRange> = Vec::new();
    let mut i: usize = 0;
    while i < chars.chars.len()
        invariant
            chars.wf(),
            chars.chars@ == text@,
            i <= text@.len(),
            out@.len() == i,
            forall|q: int|
                0 <= q < i ==> (#[trigger] out@[q]).start() == offset(text@, q) && out@[q].end()
                    == offset(text@, q + 1),
        decreases text@.len() - i,
    {
        proof {
            lemma_offset_monotone(text@, i as int, i + 1);
        }
        out.push(TextRange::new(chars.offsets[i], chars.offsets[i + 1]));
        i = i + 1;
    }
    out
}

} // verus!
