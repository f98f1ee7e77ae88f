use ultra_nlp::utils::split_as_char_ranges;
use ultra_nlp::{automaton, hashmap, trie};
use ultra_nlp::{ngrams, BehaviorForUnmatched, NgramsIterator, BuildError, Match, TextRange, UltraNLPError};

const POLICIES: [BehaviorForUnmatched; 3] = [
    BehaviorForUnmatched::Ignore,
    BehaviorForUnmatched::KeepAsWords,
    BehaviorForUnmatched::KeepAsChars,
];

fn texts<'a>(result: &[Match], text: &'a str) -> Vec<&'a str> {
    result.iter().map(|m| m.range().extract(text).unwrap()).collect()
}

fn confirmed(result: &[Match]) -> Vec<(usize, usize, Option<u32>)> {
    result
        .iter()
        .filter(|m| m.index_of_patterns().is_some())
        .map(|m| (m.range().start_index(), m.range().end_index(), m.index_of_patterns()))
        .collect()
}

#[test]
fn empty_pattern_sets_are_rejected() {
    let none: Vec<&str> = vec![];
    assert_eq!(hashmap::Dictionary::new(none.clone()).err(), Some(BuildError::EmptyPatternSet));
    assert_eq!(
        automaton::StandardDictionary::new(none.clone()).err(),
        Some(BuildError::EmptyPatternSet)
    );
    assert_eq!(
        automaton::ForwardDictionary::new(none.clone()).err(),
        Some(BuildError::EmptyPatternSet)
    );
    assert_eq!(
        automaton::BackwardDictionary::new(none.clone()).err(),
        Some(BuildError::EmptyPatternSet)
    );
    assert_eq!(trie::ForwardDictionary::new(none.clone()).err(), Some(BuildError::EmptyPatternSet));
    assert_eq!(trie::BackwardDictionary::new(none).err(), Some(BuildError::EmptyPatternSet));
}

#[test]
fn case_fold_collisions_are_duplicates() {
    let patterns = vec!["foo", "bar", "FOO"];
    assert_eq!(
        hashmap::Dictionary::new(patterns.clone()).err(),
        Some(BuildError::DuplicatePattern)
    );
    assert_eq!(
        automaton::StandardDictionary::new(patterns.clone()).err(),
        Some(BuildError::DuplicatePattern)
    );
    assert_eq!(
        automaton::BackwardDictionary::new(patterns.clone()).err(),
        Some(BuildError::DuplicatePattern)
    );
    assert_eq!(
        trie::ForwardDictionary::new(patterns.clone()).err(),
        Some(BuildError::DuplicatePattern)
    );
    assert_eq!(trie::BackwardDictionary::new(patterns).err(), Some(BuildError::DuplicatePattern));
}

#[test]
fn empty_patterns_are_refused_by_automaton_and_trie() {
    let patterns = vec!["foo", ""];
    assert_eq!(automaton::ForwardDictionary::new(patterns.clone()).err(), Some(BuildError::Rejected));
    assert_eq!(trie::ForwardDictionary::new(patterns.clone()).err(), Some(BuildError::Rejected));
    assert!(hashmap::Dictionary::new(patterns).is_ok());
}

#[test]
fn build_errors_carry_messages() {
    assert_eq!(BuildError::EmptyPatternSet.to_error().to_string(), "The patterns cannot be empty");
    assert_eq!(BuildError::DuplicatePattern.to_error().to_string(), "The patterns are not unique");
    assert_eq!(UltraNLPError::new("boom").to_string(), "boom");
}

#[test]
fn matching_ignores_case() {
    let text = "商品ABCａｂｃ";
    let patterns = vec!["商品", "ＡＢＣ", "abc"];
    let expected = vec!["商品", "ABC", "ａｂｃ"];

    let dict = hashmap::Dictionary::new(patterns.clone()).unwrap();
    let result = hashmap::segment_forward_longest(text, &dict, BehaviorForUnmatched::Ignore);
    assert_eq!(texts(&result, text), expected);
    assert_eq!(
        result.iter().map(|m| m.index_of_patterns().unwrap()).collect::<Vec<_>>(),
        vec![0, 2, 1]
    );

    let dict = automaton::ForwardDictionary::new(patterns.clone()).unwrap();
    let result = automaton::segment_forward_longest(text, &dict, BehaviorForUnmatched::Ignore);
    assert_eq!(texts(&result, text), expected);

    let dict = trie::BackwardDictionary::new(patterns).unwrap();
    let result = trie::segment_backward_longest(text, &dict, BehaviorForUnmatched::Ignore);
    assert_eq!(texts(&result, text), expected);
}

#[test]
fn kept_gaps_spell_out_the_text() {
    let text = " 商品和服务, hello world ";
    let patterns = vec!["商品", "和服", "服务", "你好世界"];
    let h = hashmap::Dictionary::new(patterns.clone()).unwrap();
    let af = automaton::ForwardDictionary::new(patterns.clone()).unwrap();
    let ab = automaton::BackwardDictionary::new(patterns.clone()).unwrap();
    let tf = trie::ForwardDictionary::new(patterns.clone()).unwrap();
    let tb = trie::BackwardDictionary::new(patterns).unwrap();
    for policy in [BehaviorForUnmatched::KeepAsWords, BehaviorForUnmatched::KeepAsChars] {
        let results = vec![
            hashmap::segment_forward_longest(text, &h, policy),
            hashmap::segment_backward_longest(text, &h, policy),
            hashmap::segment_bidirectional_longest(text, &h, policy),
            automaton::segment_forward_longest(text, &af, policy),
            automaton::segment_backward_longest(text, &ab, policy),
            automaton::segment_bidirectional_longest(text, &af, &ab, policy),
            trie::segment_forward_longest(text, &tf, policy),
            trie::segment_backward_longest(text, &tb, policy),
        ];
        for result in results {
            assert_eq!(texts(&result, text).concat(), text);
        }
    }
}

#[test]
fn gaps_kept_as_chars_are_split_everywhere() {
    let text = "ab你好cd";
    let patterns = vec!["你好"];
    let expected = vec!["a", "b", "你好", "c", "d"];
    let h = hashmap::Dictionary::new(patterns.clone()).unwrap();
    assert_eq!(
        texts(&hashmap::segment_forward_longest(text, &h, BehaviorForUnmatched::KeepAsChars), text),
        expected
    );
    assert_eq!(
        texts(&hashmap::segment_backward_longest(text, &h, BehaviorForUnmatched::KeepAsChars), text),
        expected
    );
    assert_eq!(
        texts(&hashmap::segment_fully(text, &h, BehaviorForUnmatched::KeepAsChars), text),
        expected
    );
    let s = automaton::StandardDictionary::new(patterns.clone()).unwrap();
    assert_eq!(
        texts(&automaton::segment_fully(text, &s, BehaviorForUnmatched::KeepAsChars), text),
        expected
    );
    assert_eq!(
        texts(&automaton::segment_fully(text, &s, BehaviorForUnmatched::KeepAsWords), text),
        vec!["ab", "你好", "cd"]
    );
}

#[test]
fn fully_confirmed_matches_do_not_depend_on_policy() {
    let text = " 南京市长江大桥, hello world ";
    let patterns = vec!["南京", "南京市", "市长", "长江", "大桥"];
    let h = hashmap::Dictionary::new(patterns.clone()).unwrap();
    let s = automaton::StandardDictionary::new(patterns.clone()).unwrap();
    let t = trie::ForwardDictionary::new(patterns).unwrap();
    let base_h = confirmed(&hashmap::segment_fully(text, &h, BehaviorForUnmatched::Ignore));
    let base_s = confirmed(&automaton::segment_fully(text, &s, BehaviorForUnmatched::Ignore));
    let base_t = confirmed(&trie::segment_fully(text, &t, BehaviorForUnmatched::Ignore));
    assert_eq!(base_h.len(), 5);
    for policy in POLICIES {
        assert_eq!(confirmed(&hashmap::segment_fully(text, &h, policy)), base_h);
        assert_eq!(confirmed(&automaton::segment_fully(text, &s, policy)), base_s);
        assert_eq!(confirmed(&trie::segment_fully(text, &t, policy)), base_t);
    }
}

#[test]
fn fully_reports_overlapping_matches() {
    let text = " 南京市长江大桥, hello world ";
    let patterns = vec!["南京", "南京市", "市长", "长江", "大桥"];
    let expected = vec!["南京", "南京市", "市长", "长江", "大桥"];
    let h = hashmap::Dictionary::new(patterns.clone()).unwrap();
    let s = automaton::StandardDictionary::new(patterns.clone()).unwrap();
    let t = trie::ForwardDictionary::new(patterns).unwrap();
    assert_eq!(texts(&hashmap::segment_fully(text, &h, BehaviorForUnmatched::Ignore), text), expected);
    assert_eq!(texts(&automaton::segment_fully(text, &s, BehaviorForUnmatched::Ignore), text), expected);
    assert_eq!(texts(&trie::segment_fully(text, &t, BehaviorForUnmatched::Ignore), text), expected);
}

#[test]
fn fully_orders_by_start_or_by_end() {
    let text = "abc";
    let patterns = vec!["abc", "b"];
    let h = hashmap::Dictionary::new(patterns.clone()).unwrap();
    let s = automaton::StandardDictionary::new(patterns).unwrap();
    assert_eq!(texts(&hashmap::segment_fully(text, &h, BehaviorForUnmatched::Ignore), text), vec!["abc", "b"]);
    assert_eq!(texts(&automaton::segment_fully(text, &s, BehaviorForUnmatched::Ignore), text), vec!["b", "abc"]);
}

#[test]
fn longest_patterns_win() {
    let text = "abcd";
    let forward = vec!["a", "ab", "abc", "cd"];
    let backward = vec!["d", "cd", "bcd", "ab"];
    let h = hashmap::Dictionary::new(forward.clone()).unwrap();
    assert_eq!(texts(&hashmap::segment_forward_longest(text, &h, BehaviorForUnmatched::Ignore), text), vec!["abc"]);
    let af = automaton::ForwardDictionary::new(forward.clone()).unwrap();
    assert_eq!(texts(&automaton::segment_forward_longest(text, &af, BehaviorForUnmatched::Ignore), text), vec!["abc"]);
    let tf = trie::ForwardDictionary::new(forward).unwrap();
    assert_eq!(texts(&trie::segment_forward_longest(text, &tf, BehaviorForUnmatched::Ignore), text), vec!["abc"]);
    let h = hashmap::Dictionary::new(backward.clone()).unwrap();
    assert_eq!(texts(&hashmap::segment_backward_longest(text, &h, BehaviorForUnmatched::Ignore), text), vec!["bcd"]);
    let ab = automaton::BackwardDictionary::new(backward.clone()).unwrap();
    assert_eq!(texts(&automaton::segment_backward_longest(text, &ab, BehaviorForUnmatched::Ignore), text), vec!["bcd"]);
    let tb = trie::BackwardDictionary::new(backward).unwrap();
    assert_eq!(texts(&trie::segment_backward_longest(text, &tb, BehaviorForUnmatched::Ignore), text), vec!["bcd"]);
}

#[test]
fn bidirectional_prefers_fewer_single_chars_then_backward() {
    let patterns = vec!["当", "当下", "下雨", "下雨天", "雨天", "地面", "积水"];
    let text = " 当下雨天地面积水, hello world ";
    let h = hashmap::Dictionary::new(patterns.clone()).unwrap();
    let af = automaton::ForwardDictionary::new(patterns.clone()).unwrap();
    let ab = automaton::BackwardDictionary::new(patterns).unwrap();
    let expected = vec!["当下", "雨天", "地面", "积水"];
    assert_eq!(texts(&hashmap::segment_bidirectional_longest(text, &h, BehaviorForUnmatched::Ignore), text), expected);
    assert_eq!(
        texts(&automaton::segment_bidirectional_longest(text, &af, &ab, BehaviorForUnmatched::Ignore), text),
        expected
    );

    let patterns = vec!["商品", "和服", "服务"];
    let text = " 商品和服务, hello world ";
    let h = hashmap::Dictionary::new(patterns.clone()).unwrap();
    let af = automaton::ForwardDictionary::new(patterns.clone()).unwrap();
    let ab = automaton::BackwardDictionary::new(patterns).unwrap();
    let expected = vec!["商品", "服务"];
    assert_eq!(texts(&hashmap::segment_bidirectional_longest(text, &h, BehaviorForUnmatched::Ignore), text), expected);
    assert_eq!(
        texts(&automaton::segment_bidirectional_longest(text, &af, &ab, BehaviorForUnmatched::Ignore), text),
        expected
    );
}

#[test]
fn bidirectional_prefers_fewer_spans() {
    let patterns = vec!["ab", "abc", "cd", "d"];
    let text = "abcd";
    let h = hashmap::Dictionary::new(patterns).unwrap();
    // forward: abc, d; backward: ab, cd: a tie on spans and single chars.
    assert_eq!(texts(&hashmap::segment_bidirectional_longest(text, &h, BehaviorForUnmatched::Ignore), text), vec!["ab", "cd"]);
    let patterns = vec!["abc", "bcd", "a"];
    let h = hashmap::Dictionary::new(patterns).unwrap();
    // forward: abc; backward: a, bcd.
    assert_eq!(
        texts(&hashmap::segment_bidirectional_longest(text, &h, BehaviorForUnmatched::Ignore), text),
        vec!["abc"]
    );
    // With the gap kept, forward: abc, d; backward: a, bcd: a tie again.
    assert_eq!(
        texts(&hashmap::segment_bidirectional_longest(text, &h, BehaviorForUnmatched::KeepAsWords), text),
        vec!["a", "bcd"]
    );
}

#[test]
fn adjacent_patterns_reach_the_last_char() {
    let text = "你好世界";
    let patterns = vec!["你好", "世界"];
    let h = hashmap::Dictionary::new(patterns.clone()).unwrap();
    let s = automaton::StandardDictionary::new(patterns.clone()).unwrap();
    let af = automaton::ForwardDictionary::new(patterns.clone()).unwrap();
    let ab = automaton::BackwardDictionary::new(patterns.clone()).unwrap();
    let tf = trie::ForwardDictionary::new(patterns.clone()).unwrap();
    let tb = trie::BackwardDictionary::new(patterns).unwrap();
    for policy in POLICIES {
        let expected = vec!["你好", "世界"];
        assert_eq!(texts(&hashmap::segment_forward_longest(text, &h, policy), text), expected);
        assert_eq!(texts(&hashmap::segment_backward_longest(text, &h, policy), text), expected);
        assert_eq!(texts(&hashmap::segment_fully(text, &h, policy), text), expected);
        assert_eq!(texts(&automaton::segment_fully(text, &s, policy), text), expected);
        assert_eq!(texts(&automaton::segment_forward_longest(text, &af, policy), text), expected);
        assert_eq!(texts(&automaton::segment_backward_longest(text, &ab, policy), text), expected);
        assert_eq!(texts(&trie::segment_forward_longest(text, &tf, policy), text), expected);
        assert_eq!(texts(&trie::segment_backward_longest(text, &tb, policy), text), expected);
        assert_eq!(texts(&trie::segment_fully(text, &tf, policy), text), expected);
    }
    let result = hashmap::segment_forward_longest(text, &h, BehaviorForUnmatched::Ignore);
    assert_eq!(result[1].range(), TextRange::new(6, 12));
}

#[test]
fn empty_text_has_no_segments() {
    let h = hashmap::Dictionary::new(vec!["a"]).unwrap();
    let s = automaton::StandardDictionary::new(vec!["a"]).unwrap();
    for policy in POLICIES {
        assert!(hashmap::segment_forward_longest("", &h, policy).is_empty());
        assert!(hashmap::segment_backward_longest("", &h, policy).is_empty());
        assert!(hashmap::segment_fully("", &h, policy).is_empty());
        assert!(automaton::segment_fully("", &s, policy).is_empty());
    }
}

#[test]
fn text_without_matches_is_one_gap() {
    let text = "xyz";
    let h = hashmap::Dictionary::new(vec!["a"]).unwrap();
    assert!(hashmap::segment_forward_longest(text, &h, BehaviorForUnmatched::Ignore).is_empty());
    let words = hashmap::segment_forward_longest(text, &h, BehaviorForUnmatched::KeepAsWords);
    assert_eq!(texts(&words, text), vec!["xyz"]);
    assert_eq!(words[0].index_of_patterns(), None);
    let chars = hashmap::segment_backward_longest(text, &h, BehaviorForUnmatched::KeepAsChars);
    assert_eq!(texts(&chars, text), vec!["x", "y", "z"]);
}

#[test]
fn ordinals_follow_insertion_order() {
    let text = "bca";
    let h = hashmap::Dictionary::new(vec!["c", "a", "b"]).unwrap();
    let result = hashmap::segment_forward_longest(text, &h, BehaviorForUnmatched::Ignore);
    assert_eq!(
        result.iter().map(|m| m.index_of_patterns()).collect::<Vec<_>>(),
        vec![Some(2), Some(0), Some(1)]
    );
    let weights = vec![10, 20, 30];
    assert_eq!(result[0].value_from(weights.clone()), Some(30));
    assert_eq!(result[1].value_from(weights), Some(10));
}

#[test]
fn char_ranges_measure_utf8_widths() {
    let text = "aé你🌱";
    let ranges = split_as_char_ranges(text);
    assert_eq!(
        ranges.iter().map(|r| (r.start_index(), r.end_index())).collect::<Vec<_>>(),
        vec![(0, 1), (1, 3), (3, 6), (6, 10)]
    );
    assert!(split_as_char_ranges("").is_empty());
    assert_eq!(TextRange::new(3, 10).len(), 7);
}

#[test]
fn ngram_edges() {
    assert!(ngrams("", 2).is_empty());
    assert_eq!(ngrams("ab", 5), vec!["ab"]);
    assert_eq!(ngrams("abc", 0), vec!["abc"]);
    assert_eq!(ngrams("你好世界", 3), vec!["你好世", "好世界"]);
}

#[test]
fn trie_refuses_patterns_with_nul() {
    assert_eq!(trie::ForwardDictionary::new(vec!["a\u{0}b"]).err(), Some(BuildError::Rejected));
    assert_eq!(
        trie::BackwardDictionary::new(vec!["a", "a\u{0}b"]).err(),
        Some(BuildError::Rejected)
    );
}

#[test]
fn trie_searches_stop_at_nul_in_text() {
    let text = "ab\u{0}ab";
    let t = trie::ForwardDictionary::new(vec!["a", "ab"]).unwrap();
    assert_eq!(texts(&trie::segment_fully(text, &t, BehaviorForUnmatched::Ignore), text), vec!["a", "ab", "a", "ab"]);
    assert_eq!(
        texts(&trie::segment_forward_longest(text, &t, BehaviorForUnmatched::KeepAsWords), text),
        vec!["ab", "\u{0}", "ab"]
    );
    let b = trie::BackwardDictionary::new(vec!["b", "ab"]).unwrap();
    assert_eq!(
        texts(&trie::segment_backward_longest(text, &b, BehaviorForUnmatched::KeepAsChars), text),
        vec!["ab", "\u{0}", "ab"]
    );
}

#[test]
fn automaton_fully_fills_before_a_later_longer_match() {
    let text = "abcdefg";
    let s = automaton::StandardDictionary::new(vec!["f", "cdefg"]).unwrap();
    assert_eq!(
        texts(&automaton::segment_fully(text, &s, BehaviorForUnmatched::KeepAsWords), text),
        vec!["abcde", "f", "cdefg"]
    );
    let h = hashmap::Dictionary::new(vec!["f", "cdefg"]).unwrap();
    assert_eq!(
        texts(&hashmap::segment_fully(text, &h, BehaviorForUnmatched::KeepAsWords), text),
        vec!["ab", "cdefg", "f"]
    );
}

#[test]
fn every_build_error_has_its_message() {
    assert_eq!(BuildError::IndexOverflow.to_error().to_string(), "Too many patterns");
    assert_eq!(
        BuildError::Rejected.to_error().to_string(),
        "The patterns cannot be built into a dictionary"
    );
}

#[test]
fn ngrams_iterator_yields_lazily() {
    let mut it = NgramsIterator::new("你好世界", 2);
    assert_eq!(it.next(), Some("你好"));
    assert_eq!(it.next(), Some("好世"));
    assert_eq!(it.next(), Some("世界"));
    assert_eq!(it.next(), None);
    assert_eq!(it.next(), None);
}
