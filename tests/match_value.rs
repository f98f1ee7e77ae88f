use ultra_nlp::{Match, TextRange};

#[test]
fn test_none() {
    let mat = Match::new(TextRange::new(0, 1), None);
    let map = vec![1, 2];

    let result = mat.value_from(map);

    assert!(result.is_none());
}

#[test]
fn test_some() {
    let mat = Match::new(TextRange::new(0, 1), Some(1));
    let map = vec!["0", "1"];

    let result = mat.value_from(map).unwrap();

    assert_eq!(result, "1");
}

#[test]
fn test_out_of_bounds() {
    let mat = Match::new(TextRange::new(0, 1), Some(2));
    let map = vec!["0", "1"];

    let result = mat.value_from(map);

    assert!(result.is_none());
}
