//! Half-open byte ranges over a UTF-8 string.
use vstd::prelude::*;
use vstd::string::StringSliceAdditionalSpecFns;
use vstd::utf8::{
    encode_utf8_valid_utf8, is_char_boundary, is_char_boundary_iff_not_is_continuation_byte,
    is_char_boundary_start_end_of_seq, valid_utf8_split,
};

verus! {

/// A half-open interval `[start_index, end_index)` of byte offsets.
#[derive(Debug, Copy, Clone, PartialEq, Eq, Structural)]
pub struct TextRange {
    start_index: usize,
    end_index: usize,
}

impl TextRange {
    /// First byte offset of the range.
    pub closed spec fn start(&self) -> nat {
        self.start_index as nat
    }

    /// Byte offset one past the end of the range.
    pub closed spec fn end(&self) -> nat {
        self.end_index as nat
    }

    pub fn new(start_index: usize, end_index: usize) -> (r: Self)
        requires
            start_index <= end_index,
        ensures
            r.start() == start_index,
            r.end() == end_index,
    {
        Self { start_index, end_index }
    }

    pub fn start_index(&self) -> (r: usize)
        ensures
            r == self.start(),
    {
        self.start_index
    }

    pub fn end_index(&self) -> (r: usize)
        ensures
            r == self.end(),
    {
        self.end_index
    }

    /// Number of bytes covered by the range.
    pub fn len(&self) -> (r: usize)
        requires
            self.start() <= self.end(),
        ensures
            r == self.end() - self.start(),
    {
        self.end_index - self.start_index
    }

    /// The part of `text` that the range addresses, or `None` where the range
    /// leaves the text or does not fall on character boundaries.
    pub fn extract<'a>(&self, text: &'a str) -> (r: Option<&'a str>)
        ensures
            r is Some <==> addresses(text.spec_bytes(), self.start(), self.end()),
            r matches Some(s) ==> s.spec_bytes() == text.spec_bytes().subrange(
                self.start() as int,
                self.end() as int,
            ),
    {
        let start = self.start_index;
        let end = self.end_index;
        if start <= end && end <= text.as_bytes().len() && text.is_char_boundary(start)
            && text.is_char_boundary(end) {
            let ghost bytes = text.spec_bytes();
            proof {
                encode_utf8_valid_utf8(text@);
                valid_utf8_split(bytes, end as int);
            }
            let (head, _) = text.split_at(end);
            proof {
                let hb = head.spec_bytes();
                assert(hb =~= bytes.subrange(0, end as int));
                if start < end {
                    is_char_boundary_iff_not_is_continuation_byte(bytes, start as int);
                    is_char_boundary_iff_not_is_continuation_byte(hb, start as int);
                } else {
                    is_char_boundary_start_end_of_seq(hb);
                }
            }
            let (_, piece) = head.split_at(start);
            proof {
                assert(piece.spec_bytes() =~= bytes.subrange(start as int, end as int));
            }
            Some(piece)
        } else {
            None
        }
    }
}

/// Whether `[start, end)` lies within `bytes` with both ends on character boundaries.
pub open spec fn addresses(bytes: Seq<u8>, start: nat, end: nat) -> bool {
    &&& start <= end <= bytes.len()
    &&& is_char_boundary(bytes, start as int)
    &&& is_char_boundary(bytes, end as int)
}

} // verus!
