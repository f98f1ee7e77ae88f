//! Runs of Han characters and runs of letters, found with the `regex` crate.
use vstd::prelude::*;
use regex::Regex;

verus! {

#[verifier::external_type_specification]
#[verifier::external_body]
pub struct ExRegex(regex::Regex);

#[verifier::external_type_specification]
#[verifier::external_body]
pub struct ExRegexError(regex::Error);

/// Whether `Regex::new` accepts a pattern.
pub uninterp spec fn regex_valid(pattern: Seq<char>) -> bool;

/// The pattern a compiled regular expression was built from.
pub uninterp spec fn regex_source(re: Regex) -> Seq<char>;

/// What `Regex::split` cuts a text into with a pattern.
pub uninterp spec fn split_pieces(pattern: Seq<char>, text: Seq<char>) -> Seq<Seq<char>>;

/// What `Regex::find_iter` finds in a text with a pattern, in order.
pub uninterp spec fn found_pieces(pattern: Seq<char>, text: Seq<char>) -> Seq<Seq<char>>;

/// The texts that the string slices hold.
pub open spec fn views_of(ss: Seq<&str>) -> Seq<Seq<char>> {
    ss.map_values(|s: &str| s@)
}

/// Relies on `Regex::new`: whether the pattern compiles depends on the
/// pattern alone, and the result searches with that pattern.
#[verifier::external_body]
fn compile(pattern: &str) -> (r: Result<Regex, regex::Error>)
    ensures
        r is Ok <==> regex_valid(pattern@),
        r matches Ok(re) ==> regex_source(re) == pattern@,
{
    Regex::new(pattern)
}

/// Relies on `Regex::split`: the pieces of `text` between the matches.
#[verifier::external_body]
fn split<'a>(re: &Regex, text: &'a str) -> (r: Vec<&'a str>)
    ensures
        views_of(r@) == split_pieces(regex_source(*re), text@),
{
    re.split(text).collect()
}

/// Relies on `Regex::find_iter`: the successive non-overlapping matches in
/// `text`.
#[verifier::external_body]
fn find_all<'a>(re: &Regex, text: &'a str) -> (r: Vec<&'a str>)
    ensures
        views_of(r@) == found_pieces(regex_source(*re), text@),
{
    re.find_iter(text).map(|m| m.as_str()).collect()
}

/// The texts of `ss` that are not empty, in order.
pub open spec fn nonempty(ss: Seq<Seq<char>>) -> Seq<Seq<char>>
    decreases ss.len(),
{
    if ss.len() == 0 {
        seq![]
    } else {
        nonempty(ss.drop_last()) + (if ss.last().len() > 0 {
            seq![ss.last()]
        } else {
            seq![]
        })
    }
}

/// The pieces that are not empty, in order.
pub fn keep_nonempty<'a>(pieces: Vec<&'a str>) -> (r: Vec<&'a str>)
    ensures
        views_of(r@) == nonempty(views_of(pieces@)),
{
    let mut out: Vec<&'a str> = Vec::new();
    let mut i: usize = 0;
    while i < pieces.len()
        invariant
            i <= pieces@.len(),
            views_of(out@) == nonempty(views_of(pieces@.take(i as int))),
        decreases pieces@.len() - i,
    {
        let ghost before = views_of(out@);
        proof {
            assert(views_of(pieces@.take(i + 1)).drop_last() =~= views_of(pieces@.take(i as int)));
        }
        if !pieces[i].is_empty() {
            out.push(pieces[i]);
            proof {
                assert(views_of(out@) =~= before + seq![pieces@[i as int]@]);
            }
        } else {
            proof {
                assert(views_of(out@) =~= before + Seq::<Seq<char>>::empty());
            }
        }
        i = i + 1;
    }
    proof {
        assert(pieces@.take(i as int) =~= pieces@);
    }
    out
}

/// Pattern of the stretches between runs of Han characters.
pub const HAN_GAPS: &'static str = "[^\\p{Script=Han}]+";

/// Pattern of a run of letters.
pub const LETTER_RUNS: &'static str = "\\p{General_Category=Letter}+";

/// The maximal runs of Han characters of `text`, in order: the non-empty
/// pieces between the stretches that `HAN_GAPS` matches.
pub fn extract_consecutive_chinese_chars<'a>(text: &'a str) -> (r: Vec<&'a str>)
    ensures
        regex_valid(HAN_GAPS@) ==> views_of(r@) == nonempty(split_pieces(HAN_GAPS@, text@)),
        !regex_valid(HAN_GAPS@) ==> r@.len() == 0,
{
    match compile(HAN_GAPS) {
        Ok(re) => keep_nonempty(split(&re, text)),
        Err(_) => Vec::new(),
    }
}

/// The maximal runs of letters of `text`, in order.
pub fn extract_consecutive_letters<'a>(text: &'a str) -> (r: Vec<&'a str>)
    ensures
        regex_valid(LETTER_RUNS@) ==> views_of(r@) == found_pieces(LETTER_RUNS@, text@),
        !regex_valid(LETTER_RUNS@) ==> r@.len() == 0,
{
    match compile(LETTER_RUNS) {
        Ok(re) => find_all(&re, text),
        Err(_) => Vec::new(),
    }
}

} // verus!
