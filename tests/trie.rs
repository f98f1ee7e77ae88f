use ultra_nlp::trie::{
    segment_backward_longest, segment_forward_longest, segment_fully, BackwardDictionary,
    ForwardDictionary,
};
use ultra_nlp::BehaviorForUnmatched;

#[test]
fn trie_forward_dictionary_test_empty_patterns() {
    let patterns: Vec<&str> = vec![];

    assert!(ForwardDictionary::new(patterns).is_err());
}

#[test]
fn trie_forward_dictionary_test_patterns() {
    let patterns: Vec<&str> = vec!["foo", "bar"];

    ForwardDictionary::new(patterns).unwrap();
}

#[test]
fn trie_forward_dictionary_test_same_patterns() {
    let patterns: Vec<&str> = vec!["foo", "FOO"];

    assert!(ForwardDictionary::new(patterns).is_err());
}

#[test]
fn trie_backward_dictionary_test_empty_patterns() {
    let patterns: Vec<&str> = vec![];

    assert!(BackwardDictionary::new(patterns).is_err());
}

#[test]
fn trie_backward_dictionary_test_patterns() {
    let patterns: Vec<&str> = vec!["foo", "bar"];

    BackwardDictionary::new(patterns).unwrap();
}

#[test]
fn trie_backward_dictionary_test_same_patterns() {
    let patterns: Vec<&str> = vec!["foo", "FOO"];

    assert!(BackwardDictionary::new(patterns).is_err());
}

#[test]
fn trie_segment_backward_longest_test_ignore_unmatched() {
    let text = " 商品和服务, hello world ";
    let dict = BackwardDictionary::new(
        vec!["商品", "和服", "服务", "你好世界"]
    ).unwrap();

    let result = segment_backward_longest(
        text,
        &dict,
        BehaviorForUnmatched::Ignore
    );

    assert_eq!(
        result
            .into_iter()
            .map(|x| x.range().extract(text).unwrap())
            .collect::<Vec<_>>(),
        vec!["商品", "服务",]
    );
}

#[test]
fn trie_segment_backward_longest_test_keep_unmatched_as_chars() {
    let text = " 商品和服务, hello world ";
    let dict = BackwardDictionary::new(
        vec!["商品", "和服", "服务", "你好世界"]
    ).unwrap();

    let result = segment_backward_longest(
        text,
        &dict,
        BehaviorForUnmatched::KeepAsChars
    );

    assert_eq!(
        result
            .into_iter()
            .map(|x| x.range().extract(text).unwrap())
            .collect::<Vec<_>>(),
        vec![
            " ",
            "商品",
            "和",
            "服务",
            ",",
            " ",
            "h",
            "e",
            "l",
            "l",
            "o",
            " ",
            "w",
            "o",
            "r",
            "l",
            "d",
            " ",
        ]
    );
}

#[test]
fn trie_segment_backward_longest_test_keep_unmatched_as_words() {
    let text = " 商品和服务, hello world ";
    let dict = BackwardDictionary::new(
        vec!["商品", "和服", "服务", "你好世界"]
    ).unwrap();

    let result = segment_backward_longest(
        text,
        &dict,
        BehaviorForUnmatched::KeepAsWords
    );

    assert_eq!(
        result
            .into_iter()
            .map(|x| x.range().extract(text).unwrap())
            .collect::<Vec<_>>(),
        vec![
            " ",
            "商品",
            "和",
            "服务",
            ", hello world ",
        ]
    );
}

#[test]
fn trie_segment_backward_longest_test_value() {
    let text = " 商品和服务, hello world ";
    let dict = BackwardDictionary::new(
        vec![
            "商品",
            "和服",
            "服务",
            "你好世界",
        ]
    ).unwrap();

    let result = segment_backward_longest(
        text,
        &dict,
        BehaviorForUnmatched::Ignore
    );

    assert_eq!(
        result
            .into_iter()
            .map(|x| x.index_of_patterns().unwrap())
            .collect::<Vec<_>>(),
        vec![0, 2]
    );
}

#[test]
fn trie_segment_backward_longest_test_chars_on_edge() {
    let text = "你好世界";
    let dict = BackwardDictionary::new(
        vec!["你好", "世界"]
    ).unwrap();

    let result = segment_backward_longest(
        text,
        &dict,
        BehaviorForUnmatched::Ignore
    );

    assert_eq!(
        result
            .into_iter()
            .map(|x| x.range().extract(text).unwrap())
            .collect::<Vec<_>>(),
        vec!["你好", "世界"]
    );
}

#[test]
fn trie_segment_forward_longest_test_ignore_unmatched() {
    let text = " 商品和服务, hello world ";
    let dict = ForwardDictionary::new(
        vec!["商品", "和服", "服务", "你好世界"]
    ).unwrap();

    let result = segment_forward_longest(
        text,
        &dict,
        BehaviorForUnmatched::Ignore
    );

    assert_eq!(
        result
            .iter()
            .map(|x| x.range().extract(text).unwrap())
            .collect::<Vec<_>>(),
        vec!["商品", "和服",]
    );
}

#[test]
fn trie_segment_forward_longest_test_keep_unmatched_as_chars() {
    let text = " 商品和服务, hello world ";
    let dict = ForwardDictionary::new(
        vec!["商品", "和服", "服务", "你好世界"]
    ).unwrap();

    let result = segment_forward_longest(
        text,
        &dict,
        BehaviorForUnmatched::KeepAsChars
    );

    assert_eq!(
        result
            .iter()
            .map(|x| x.range().extract(text).unwrap())
            .collect::<Vec<_>>(),
        vec![
            " ",
            "商品",
            "和服",
            "务",
            ",",
            " ",
            "h",
            "e",
            "l",
            "l",
            "o",
            " ",
            "w",
            "o",
            "r",
            "l",
            "d",
            " ",
        ],
    );
}

#[test]
fn trie_segment_forward_longest_test_keep_unmatched_as_words() {
    let text = " 商品和服务, hello world ";
    let dict = ForwardDictionary::new(
        vec!["商品", "和服", "服务", "你好世界"]
    ).unwrap();

    let result = segment_forward_longest(
        text,
        &dict,
        BehaviorForUnmatched::KeepAsWords
    );

    assert_eq!(
        result
            .iter()
            .map(|x| x.range().extract(text).unwrap())
            .collect::<Vec<_>>(),
        vec![
            " ",
            "商品",
            "和服",
            "务, hello world ",
        ],
    );
}

#[test]
fn trie_segment_forward_longest_test_value() {
    let text = " 商品和服务, hello world ";
    let dict = ForwardDictionary::new(
        vec![
            "商品",
            "和服",
            "服务",
            "你好世界",
        ]
    ).unwrap();

    let result = segment_forward_longest(
        text,
        &dict,
        BehaviorForUnmatched::Ignore
    );

    assert_eq!(
        result
            .iter()
            .map(|x| x.index_of_patterns().unwrap())
            .collect::<Vec<_>>(),
        vec![0, 1]
    );
}

#[test]
fn trie_segment_forward_longest_test_chars_on_edge() {
    let text = "你好世界";
    let dict = ForwardDictionary::new(
        vec!["你好", "世界"]
    ).unwrap();

    let result = segment_forward_longest(
        text,
        &dict,
        BehaviorForUnmatched::Ignore
    );

    assert_eq!(
        result
            .iter()
            .map(|x| x.range().extract(text).unwrap())
            .collect::<Vec<_>>(),
        vec!["你好", "世界"]
    );
}

#[test]
fn trie_segment_fully_test_ignore_unmatched() {
    let text = " 南京市长江大桥, hello world ";
    let dict = ForwardDictionary::new(
        vec!["南京", "南京市", "市长", "长江", "大桥", "你好世界"]
    ).unwrap();

    let result = segment_fully(
        text,
        &dict,
        BehaviorForUnmatched::Ignore
    );

    assert_eq!(
        result
            .iter()
            .map(|x| x.range().extract(text).unwrap())
            .collect::<Vec<_>>(),
        vec!["南京", "南京市", "市长", "长江", "大桥"]
    );
}

#[test]
fn trie_segment_fully_test_keep_unmatched_as_chars() {
    let text = " 南京市长江大桥, hello world ";
    let dict = ForwardDictionary::new(
        vec!["南京", "南京市", "市长", "长江", "大桥", "你好世界"]
    ).unwrap();

    let result = segment_fully(
        text,
        &dict,
        BehaviorForUnmatched::KeepAsChars
    );

    assert_eq!(
        result
            .iter()
            .map(|x| x.range().extract(text).unwrap())
            .collect::<Vec<_>>(),
        vec![
            " ",
            "南京",
            "南京市",
            "市长",
            "长江",
            "大桥",
            ",",
            " ",
            "h",
            "e",
            "l",
            "l",
            "o",
            " ",
            "w",
            "o",
            "r",
            "l",
            "d",
            " ",
        ]
    );
}

#[test]
fn trie_segment_fully_test_keep_unmatched_as_words() {
    let text = " 南京市长江大桥, hello world ";
    let dict = ForwardDictionary::new(
        vec!["南京", "南京市", "市长", "长江", "大桥", "你好世界"]
    ).unwrap();

    let result = segment_fully(
        text,
        &dict,
        BehaviorForUnmatched::KeepAsWords
    );

    assert_eq!(
        result
            .iter()
            .map(|x| x.range().extract(text).unwrap())
            .collect::<Vec<_>>(),
        vec![
            " ",
            "南京",
            "南京市",
            "市长",
            "长江",
            "大桥",
            ", hello world ",
        ]
    );
}

#[test]
fn trie_segment_fully_test_value() {
    let text = " 南京市长江大桥, hello world ";
    let dict = ForwardDictionary::new(
        vec![
            "南京",
            "南京市",
            "市长",
            "长江",
            "大桥",
            "你好世界",
        ]
    ).unwrap();

    let result = segment_fully(
        text,
        &dict,
        BehaviorForUnmatched::Ignore
    );

    assert_eq!(
        result
            .iter()
            .map(|x| x.index_of_patterns().unwrap())
            .collect::<Vec<_>>(),
        vec![
            0,
            1,
            2,
            3,
            4,
        ]
    );
}

#[test]
fn trie_segment_fully_test_chars_on_edge() {
    let text = "你好世界";
    let dict = ForwardDictionary::new(
        vec!["你好", "世界"]
    ).unwrap();

    let result = segment_fully(
        text,
        &dict,
        BehaviorForUnmatched::Ignore
    );

    assert_eq!(
        result
            .iter()
            .map(|x| x.range().extract(text).unwrap())
            .collect::<Vec<_>>(),
        vec!["你好", "世界"]
    );
}
