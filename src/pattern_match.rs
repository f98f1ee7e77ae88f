//! A segment of a text: a byte range and, for a dictionary hit, the ordinal
//! of the pattern found there.
use vstd::prelude::*;
use crate::text_range::TextRange;

verus! {

#[derive(Debug, Copy, Clone, PartialEq, Eq, Structural)]
pub struct Match {
    range: TextRange,
    /// `None` for a span of text that no pattern covers.
    index_of_patterns: Option<u32>,
}

impl Match {
    pub closed spec fn spec_range(&self) -> TextRange {
        self.range
    }

    pub closed spec fn spec_index(&self) -> Option<u32> {
        self.index_of_patterns
    }

    pub fn new(range: TextRange, index_of_patterns: Option<u32>) -> (r: Self)
        ensures
            r.spec_range() == range,
            r.spec_index() == index_of_patterns,
    {
        Self { range, index_of_patterns }
    }

    pub fn range(&self) -> (r: TextRange)
        ensures
            r == self.spec_range(),
    {
        self.range
    }

    pub fn index_of_patterns(&self) -> (r: Option<u32>)
        ensures
            r == self.spec_index(),
    {
        self.index_of_patterns
    }

    /// The entry of `map` at this match's pattern ordinal, if there is one.
    pub fn value_from<T: Copy>(&self, map: Vec<T>) -> (r: Option<T>)
        ensures
            r == (match self.spec_index() {
                Some(i) => if (i as int) < map@.len() {
                    Some(map@[i as int])
                } else {
                    None
                },
                None => None,
            }),
    {
        match self.index_of_patterns {
            Some(index) => {
                if (index as usize) < map.len() {
                    Some(map[index as usize])
                } else {
                    None
                }
            },
            None => None,
        }
    }
}

} // verus!
