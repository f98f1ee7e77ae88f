use ultra_nlp::utils::split_as_char_ranges;

#[test]
fn test_split_as_char_ranges() {
    let text = " 你好世界, hello world ";

    let result = split_as_char_ranges(&text);

    assert_eq!(
        result
            .into_iter()
            .map(|x| x.extract(text).unwrap())
            .collect::<Vec<_>>(),
        vec![
            " ",
            "你",
            "好",
            "世",
            "界",
            ",",
            " ",
            "h",
            "e",
            "l",
            "l",
            "o",
            " ",
            "w",
            "o",
            "r",
            "l",
            "d",
            " ",
        ]
    );
}
