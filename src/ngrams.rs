//! Windows of a fixed number of characters over a text.
use vstd::prelude::*;
use vstd::string::StrSliceExecFns;

verus! {

/// The windows of `n` characters of `cs` from character `i` on, each one
/// character further; the last window is what remains of the text once a
/// window would reach its end. A window size of 0 takes the whole remainder.
pub open spec fn ngram_windows(cs: Seq<char>, n: nat, i: int) -> Seq<Seq<char>>
    decreases cs.len() - i,
{
    if i < 0 || i >= cs.len() {
        seq![]
    } else if n == 0 || i + n >= cs.len() {
        seq![cs.subrange(i, cs.len() as int)]
    } else {
        seq![cs.subrange(i, i + n)] + ngram_windows(cs, n, i + 1)
    }
}

/// Yields the windows of a text one at a time.
pub struct NgramsIterator<'a> {
    n: usize,
    text: &'a str,
    /// Character position of the next window.
    index: usize,
    len: usize,
}

impl<'a> NgramsIterator<'a> {
    /// The windows not yet yielded.
    pub closed spec fn remaining(&self) -> Seq<Seq<char>> {
        ngram_windows(self.text@, self.n as nat, self.index as int)
    }

    pub closed spec fn wf(&self) -> bool {
        &&& self.len == self.text@.len()
        &&& self.index <= self.len
    }

    /// An iterator over the windows of `n` characters of `text`.
    pub fn new(text: &'a str, n: usize) -> (r: NgramsIterator<'a>)
        ensures
            r.wf(),
            r.remaining() == ngram_windows(text@, n as nat, 0),
    {
        NgramsIterator { text, n, index: 0, len: text.unicode_len() }
    }

    /// The next window, if any.
    pub fn next(&mut self) -> (r: Option<&'a str>)
        requires
            old(self).wf(),
        ensures
            final(self).wf(),
            old(self).remaining().len() == 0 ==> r is None && final(self).remaining().len() == 0,
            old(self).remaining().len() > 0 ==> r is Some && r->0@ == old(self).remaining()[0]
                && final(self).remaining() == old(self).remaining().drop_first(),
    {
        let start = self.index;
        if start >= self.len {
            return None;
        }
        if self.n == 0 || self.n >= self.len - start {
            self.index = self.len;
            proof {
                assert(self.remaining() =~= Seq::<Seq<char>>::empty());
            }
            Some(self.text.substring_char(start, self.len))
        } else {
            self.index = start + 1;
            Some(self.text.substring_char(start, start + self.n))
        }
    }
}

/// Every window of `n` characters of `text`, in order (see `ngram_windows`).
pub fn ngrams<'a>(text: &'a str, n: usize) -> (r: Vec<&'a str>)
    ensures
        r@.len() == ngram_windows(text@, n as nat, 0).len(),
        forall|i: int| 0 <= i < r@.len() ==> (#[trigger] r@[i])@ == ngram_windows(text@, n as nat, 0)[i],
{
    let mut it = NgramsIterator::new(text, n);
    let mut out: Vec<&'a str> = Vec::new();
    let ghost all = ngram_windows(text@, n as nat, 0);
    loop
        invariant
            it.wf(),
            out@.len() + it.remaining().len() == all.len(),
            forall|i: int| 0 <= i < out@.len() ==> (#[trigger] out@[i])@ == all[i],
            forall|i: int| 0 <= i < it.remaining().len() ==> #[trigger] it.remaining()[i] == all[out@.len() + i],
        ensures
            out@.len() == all.len(),
            forall|i: int| 0 <= i < out@.len() ==> (#[trigger] out@[i])@ == all[i],
        decreases it.remaining().len(),
    {
        let ghost before = it.remaining();
        match it.next() {
            Some(w) => {
                proof {
                    assert(before[0] == all[out@.len() as int]);
                }
                out.push(w);
                proof {
                    assert forall|i: int| 0 <= i < it.remaining().len() implies #[trigger] it.remaining()[i]
                        == all[out@.len() + i] by {
                        assert(it.remaining()[i] == before[i + 1]);
                    }
                }
            },
            None => {
                break;
            },
        }
    }
    out
}

} // verus!
