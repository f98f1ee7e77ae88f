use ultra_nlp::automaton::{
    segment_backward_longest, segment_bidirectional_longest, segment_forward_longest,
    segment_fully, BackwardDictionary, ForwardDictionary, StandardDictionary,
};
use ultra_nlp::BehaviorForUnmatched;

#[test]
fn automaton_standard_dictionary_test_empty_patterns() {
    let patterns: Vec<&str> = vec![];

    assert!(StandardDictionary::new(patterns).is_err());
}

#[test]
fn automaton_standard_dictionary_test_patterns() {
    let patterns: Vec<&str> = vec!["foo", "bar"];

    StandardDictionary::new(patterns).unwrap();
}

#[test]
fn automaton_standard_dictionary_test_same_patterns() {
    let patterns: Vec<&str> = vec!["foo", "FOO"];

    assert!(StandardDictionary::new(patterns).is_err());
}

#[test]
fn automaton_forward_dictionary_test_empty_patterns() {
    let patterns: Vec<&str> = vec![];

    assert!(ForwardDictionary::new(patterns).is_err());
}

#[test]
fn automaton_forward_dictionary_test_patterns() {
    let patterns: Vec<&str> = vec!["foo", "bar"];

    ForwardDictionary::new(patterns).unwrap();
}

#[test]
fn automaton_forward_dictionary_test_same_patterns() {
    let patterns: Vec<&str> = vec!["foo", "FOO"];

    assert!(ForwardDictionary::new(patterns).is_err());
}

#[test]
fn automaton_backward_dictionary_test_empty_patterns() {
    let patterns: Vec<&str> = vec![];

    assert!(BackwardDictionary::new(patterns).is_err());
}

#[test]
fn automaton_backward_dictionary_test_patterns() {
    let patterns: Vec<&str> = vec!["foo", "bar"];

    BackwardDictionary::new(patterns).unwrap();
}

#[test]
fn automaton_backward_dictionary_test_same_patterns() {
    let patterns: Vec<&str> = vec!["foo", "FOO"];

    assert!(BackwardDictionary::new(patterns).is_err());
}

#[test]
fn automaton_segment_backward_longest_test_ignore_unmatched() {
    let text = " 商品和服务, hello world ";
    let dict = BackwardDictionary::new(
        vec!["商品", "和服", "服务", "你好世界"]
    ).unwrap();

    let result = segment_backward_longest(
        text,
        &dict,
        BehaviorForUnmatched::Ignore
    );

    assert_eq!(
        result
            .into_iter()
            .map(|x| x.range().extract(text).unwrap())
            .collect::<Vec<_>>(),
        vec!["商品", "服务",]
    );
}

#[test]
fn automaton_segment_backward_longest_test_keep_unmatched_as_chars() {
    let text = " 商品和服务, hello world ";
    let dict = BackwardDictionary::new(
        vec!["商品", "和服", "服务", "你好世界"]
    ).unwrap();

    let result = segment_backward_longest(
        text,
        &dict,
        BehaviorForUnmatched::KeepAsChars
    );

    assert_eq!(
        result
            .into_iter()
            .map(|x| x.range().extract(text).unwrap())
            .collect::<Vec<_>>(),
        vec![
            " ",
            "商品",
            "和",
            "服务",
            ",",
            " ",
            "h",
            "e",
            "l",
            "l",
            "o",
            " ",
            "w",
            "o",
            "r",
            "l",
            "d",
            " ",
        ]
    );
}

#[test]
fn automaton_segment_backward_longest_test_keep_unmatched_as_words() {
    let text = " 商品和服务, hello world ";
    let dict = BackwardDictionary::new(
        vec!["商品", "和服", "服务", "你好世界"]
    ).unwrap();

    let result = segment_backward_longest(
        text,
        &dict,
        BehaviorForUnmatched::KeepAsWords
    );

    assert_eq!(
        result
            .into_iter()
            .map(|x| x.range().extract(text).unwrap())
            .collect::<Vec<_>>(),
        vec![
            " ",
            "商品",
            "和",
            "服务",
            ", hello world ",
        ]
    );
}

#[test]
fn automaton_segment_backward_longest_test_value() {
    let text = " 商品和服务, hello world ";
    let dict = BackwardDictionary::new(
        vec![
            "商品",
            "和服",
            "服务",
            "你好世界",
        ]
    ).unwrap();

    let result = segment_backward_longest(
        text,
        &dict,
        BehaviorForUnmatched::Ignore
    );

    assert_eq!(
        result
            .into_iter()
            .map(|x| x.index_of_patterns().unwrap())
            .collect::<Vec<_>>(),
        vec![0, 2]
    );
}

#[test]
fn automaton_segment_backward_longest_test_chars_on_edge() {
    let text = "你好世界";
    let dict = BackwardDictionary::new(
        vec!["你好", "世界"]
    ).unwrap();

    let result = segment_backward_longest(
        text,
        &dict,
        BehaviorForUnmatched::Ignore
    );

    assert_eq!(
        result
            .into_iter()
            .map(|x| x.range().extract(text).unwrap())
            .collect::<Vec<_>>(),
        vec!["你好", "世界"]
    );
}

#[test]
fn automaton_segment_bidirectional_longest_test_should_returns_forward_longest_results() {
    let text = " 当下雨天地面积水, hello world ";
    let patterns = vec![
        "当",
        "当下",
        "下雨",
        "下雨天",
        "雨天",
        "地面",
        "积水",
        "你好世界",
    ];
    let forward_dict = ForwardDictionary::new(
        patterns.clone()
    ).unwrap();
    let backward_dict = BackwardDictionary::new(
        patterns.clone()
    ).unwrap();

    // 正向结果: [当下, 雨天, 地面, 积水]
    // 逆向结果: [当, 下雨天, 地面, 积水]
    // 结果数量相同, 单字数量正向结果少于逆向结果, 返回单字数量更少的正向结果.
    let result = segment_bidirectional_longest(
        text,
        &forward_dict,
        &backward_dict,
        BehaviorForUnmatched::Ignore,
    );

    assert_eq!(
        result
            .into_iter()
            .map(|x| x.range().extract(text).unwrap())
            .collect::<Vec<_>>(),
        vec!["当下", "雨天", "地面", "积水"]
    )
}

#[test]
fn automaton_segment_bidirectional_longest_test_should_returns_backward_longest_results() {
    let text = " 商品和服务, hello world ";
    let patterns = vec!["商品", "和服", "服务", "你好世界"];
    let forward_dict = ForwardDictionary::new(
        patterns.clone()
    ).unwrap();
    let backward_dict = BackwardDictionary::new(
        patterns.clone()
    ).unwrap();

    // 正向结果: [商品, 和服]
    // 逆向结果: [商品, 服务]
    // 结果数量相同, 单字数量也相同, 返回逆向结果.
    let result = segment_bidirectional_longest(
        text,
        &forward_dict,
        &backward_dict,
        BehaviorForUnmatched::Ignore,
    );

    assert_eq!(
        result
            .into_iter()
            .map(|x| x.range().extract(text).unwrap())
            .collect::<Vec<_>>(),
        vec!["商品", "服务",]
    )
}

#[test]
fn automaton_segment_bidirectional_longest_test_ignore_unmatched() {
    let text = " 商品和服务, hello world ";
    let patterns = vec!["商品", "和服", "服务", "你好世界"];
    let forward_dict = ForwardDictionary::new(
        patterns.clone()
    ).unwrap();
    let backward_dict = BackwardDictionary::new(
        patterns.clone()
    ).unwrap();

    let result = segment_bidirectional_longest(
        text,
        &forward_dict,
        &backward_dict,
        BehaviorForUnmatched::Ignore,
    );

    assert_eq!(
        result
            .into_iter()
            .map(|x| x.range().extract(text).unwrap())
            .collect::<Vec<_>>(),
        vec!["商品", "服务",]
    )
}

#[test]
fn automaton_segment_bidirectional_longest_test_keep_unmatched_as_chars() {
    let text = " 商品和服务, hello world ";
    let patterns = vec!["商品", "和服", "服务", "你好世界"];
    let forward_dict = ForwardDictionary::new(
        patterns.clone()
    ).unwrap();
    let backward_dict = BackwardDictionary::new(
        patterns.clone()
    ).unwrap();

    let result = segment_bidirectional_longest(
        text,
        &forward_dict,
        &backward_dict,
        BehaviorForUnmatched::KeepAsChars,
    );

    assert_eq!(
        result
            .into_iter()
            .map(|x| x.range().extract(text).unwrap())
            .collect::<Vec<_>>(),
        vec![
            " ",
            "商品",
            "和",
            "服务",
            ",",
            " ",
            "h",
            "e",
            "l",
            "l",
            "o",
            " ",
            "w",
            "o",
            "r",
            "l",
            "d",
            " ",
        ]
    )
}

#[test]
fn automaton_segment_bidirectional_longest_test_keep_unmatched_as_words() {
    let text = " 当下雨天地面积水, hello world ";
    let patterns = vec![
        "当",
        "当下",
        "下雨",
        "下雨天",
        "雨天",
        "地面",
        "积水",
        "你好世界",
    ];
    let forward_dict = ForwardDictionary::new(
        patterns.clone()
    ).unwrap();
    let backward_dict = BackwardDictionary::new(
        patterns.clone()
    ).unwrap();

    let result = segment_bidirectional_longest(
        text,
        &forward_dict,
        &backward_dict,
        BehaviorForUnmatched::KeepAsWords,
    );

    assert_eq!(
        result
            .into_iter()
            .map(|x| x.range().extract(text).unwrap())
            .collect::<Vec<_>>(),
        vec![" ", "当下", "雨天", "地面", "积水", ", hello world "]
    )
}

#[test]
fn automaton_segment_bidirectional_longest_test_value() {
    let text = " 当下雨天地面积水, hello world ";
    let patterns: Vec<&str> = vec![
        "当",
        "当下",
        "下雨",
        "下雨天",
        "雨天",
        "地面",
        "积水",
        "你好世界",
    ];
    let forward_dict = ForwardDictionary::new(
        patterns.clone()
    ).unwrap();
    let backward_dict = BackwardDictionary::new(
        patterns.clone()
    ).unwrap();

    // 正向结果: [当下, 雨天, 地面, 积水]
    // 逆向结果: [当, 下雨天, 地面, 积水]
    // 结果数量相同, 单字数量正向结果少于逆向结果, 返回单字数量更少的正向结果.
    let result = segment_bidirectional_longest(
        text,
        &forward_dict,
        &backward_dict,
        BehaviorForUnmatched::Ignore,
    );

    assert_eq!(
        result
            .into_iter()
            .map(|x| x.index_of_patterns().unwrap())
            .collect::<Vec<_>>(),
        vec![1, 4, 5, 6]
    )
}

#[test]
fn automaton_segment_bidirectional_longest_test_chars_on_edge() {
    let text = "你好世界";
    let patterns = vec!["你好", "世界"];
    let forward_dict = ForwardDictionary::new(
        patterns.clone()
    ).unwrap();
    let backward_dict = BackwardDictionary::new(
        patterns.clone()
    ).unwrap();

    let result = segment_bidirectional_longest(
        text,
        &forward_dict,
        &backward_dict,
        BehaviorForUnmatched::Ignore
    );

    assert_eq!(
        result
            .into_iter()
            .map(|x| x.range().extract(text).unwrap())
            .collect::<Vec<_>>(),
        vec!["你好", "世界"]
    );
}

#[test]
fn automaton_segment_forward_longest_test_ignore_unmatched() {
    let text = " 商品和服务, hello world ";
    let dict = ForwardDictionary::new(
        vec!["商品", "和服", "服务", "你好世界"]
    ).unwrap();

    let result = segment_forward_longest(
        text,
        &dict,
        BehaviorForUnmatched::Ignore
    );

    assert_eq!(
        result
            .into_iter()
            .map(|x| x.range().extract(text).unwrap())
            .collect::<Vec<_>>(),
        vec!["商品", "和服",]
    );
}

#[test]
fn automaton_segment_forward_longest_test_keep_unmatched_as_chars() {
    let text = " 商品和服务, hello world ";
    let dict = ForwardDictionary::new(
        vec!["商品", "和服", "服务", "你好世界"]
    ).unwrap();

    let result = segment_forward_longest(
        text,
        &dict,
        BehaviorForUnmatched::KeepAsChars
    );

    assert_eq!(
        result
            .into_iter()
            .map(|x| x.range().extract(text).unwrap())
            .collect::<Vec<_>>(),
        vec![
            " ",
            "商品",
            "和服",
            "务",
            ",",
            " ",
            "h",
            "e",
            "l",
            "l",
            "o",
            " ",
            "w",
            "o",
            "r",
            "l",
            "d",
            " ",
        ],
    );
}

#[test]
fn automaton_segment_forward_longest_test_keep_unmatched_as_words() {
    let text = " 商品和服务, hello world ";
    let dict = ForwardDictionary::new(
        vec!["商品", "和服", "服务", "你好世界"]
    ).unwrap();

    let result = segment_forward_longest(
        text,
        &dict,
        BehaviorForUnmatched::KeepAsWords
    );

    assert_eq!(
        result
            .into_iter()
            .map(|x| x.range().extract(text).unwrap())
            .collect::<Vec<_>>(),
        vec![
            " ",
            "商品",
            "和服",
            "务, hello world ",
        ],
    );
}

#[test]
fn automaton_segment_forward_longest_test_value() {
    let text = " 商品和服务, hello world ";
    let dict = ForwardDictionary::new(
        vec![
            "商品",
            "和服",
            "服务",
            "你好世界",
        ]
    ).unwrap();

    let result = segment_forward_longest(
        text,
        &dict,
        BehaviorForUnmatched::Ignore
    );

    assert_eq!(
        result
            .into_iter()
            .map(|x| x.index_of_patterns().unwrap())
            .collect::<Vec<_>>(),
        vec![0, 1]
    );
}

#[test]
fn automaton_segment_forward_longest_test_chars_on_edge() {
    let text = "你好世界";
    let dict = ForwardDictionary::new(
        vec!["你好", "世界"]
    ).unwrap();

    let result = segment_forward_longest(
        text,
        &dict,
        BehaviorForUnmatched::Ignore
    );

    assert_eq!(
        result
            .into_iter()
            .map(|x| x.range().extract(text).unwrap())
            .collect::<Vec<_>>(),
        vec!["你好", "世界"]
    );
}

#[test]
fn automaton_segment_fully_test_ignore_unmatched() {
    let text = " 南京市长江大桥, hello world ";
    let dict = StandardDictionary::new(
        vec!["南京", "南京市", "市长", "长江", "大桥", "你好世界"]
    ).unwrap();

    let result = segment_fully(
        text,
        &dict,
        BehaviorForUnmatched::Ignore
    );

    assert_eq!(
        result
            .iter()
            .map(|x| x.range().extract(text).unwrap())
            .collect::<Vec<_>>(),
        vec!["南京", "南京市", "市长", "长江", "大桥"]
    );
}

#[test]
fn automaton_segment_fully_test_keep_unmatched_as_chars() {
    let text = " 南京市长江大桥, hello world ";
    let dict = StandardDictionary::new(
        vec!["南京", "南京市", "市长", "长江", "大桥", "你好世界"]
    ).unwrap();

    let result = segment_fully(
        text,
        &dict,
        BehaviorForUnmatched::KeepAsChars
    );

    assert_eq!(
        result
            .iter()
            .map(|x| x.range().extract(text).unwrap())
            .collect::<Vec<_>>(),
        vec![
            " ",
            "南京",
            "南京市",
            "市长",
            "长江",
            "大桥",
            ",",
            " ",
            "h",
            "e",
            "l",
            "l",
            "o",
            " ",
            "w",
            "o",
            "r",
            "l",
            "d",
            " ",
        ]
    );
}

#[test]
fn automaton_segment_fully_test_keep_unmatched_as_words() {
    let text = " 南京市长江大桥, hello world ";
    let dict = StandardDictionary::new(
        vec!["南京", "南京市", "市长", "长江", "大桥", "你好世界"]
    ).unwrap();

    let result = segment_fully(
        text,
        &dict,
        BehaviorForUnmatched::KeepAsWords
    );

    assert_eq!(
        result
            .iter()
            .map(|x| x.range().extract(text).unwrap())
            .collect::<Vec<_>>(),
        vec![
            " ",
            "南京",
            "南京市",
            "市长",
            "长江",
            "大桥",
            ", hello world ",
        ]
    );
}

#[test]
fn automaton_segment_fully_test_value() {
    let text = " 南京市长江大桥, hello world ";
    let dict = StandardDictionary::new(
        vec![
            "南京",
            "南京市",
            "市长",
            "长江",
            "大桥",
            "你好世界",
        ]
    ).unwrap();

    let result = segment_fully(
        text,
        &dict,
        BehaviorForUnmatched::Ignore
    );

    assert_eq!(
        result
            .iter()
            .map(|x| x.index_of_patterns().unwrap())
            .collect::<Vec<_>>(),
        vec![
            0,
            1,
            2,
            3,
            4,
        ]
    );
}

#[test]
fn automaton_segment_fully_test_chars_on_edge() {
    let text = "你好世界";
    let dict = StandardDictionary::new(
        vec!["你好", "世界"]
    ).unwrap();

    let result = segment_fully(
        text,
        &dict,
        BehaviorForUnmatched::Ignore
    );

    assert_eq!(
        result
            .iter()
            .map(|x| x.range().extract(text).unwrap())
            .collect::<Vec<_>>(),
        vec!["你好", "世界"]
    );
}
