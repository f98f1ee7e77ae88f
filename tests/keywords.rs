use ultra_nlp::{extract_keywords, Match, TextRange};

/// Ranks that order as the weights do.
fn ranks_of(weights: &[f64]) -> Vec<u64> {
    weights
        .iter()
        .map(|w| {
            let bits = w.to_bits();
            if bits >> 63 == 1 {
                !bits
            } else {
                bits | (1 << 63)
            }
        })
        .collect()
}

#[test]
fn test_matches_more_than_top() {
    let matches: Vec<Match> = vec![
        Match::new(TextRange::new(0, 1), None),
        Match::new(TextRange::new(1, 2), Some(0)),
        Match::new(TextRange::new(2, 3), Some(1)),
    ];
    let ranks = ranks_of(&[0f64, 1f64]);
    let top = 2;

    let result = extract_keywords(&matches, &ranks, top);

    assert_eq!(
        result,
        vec![
            matches[2].clone(),
            matches[1].clone()
        ]
    );
}

#[test]
fn test_matches_less_than_top() {
    let matches: Vec<Match> = vec![
        Match::new(TextRange::new(0, 1), None),
        Match::new(TextRange::new(1, 2), Some(0)),
        Match::new(TextRange::new(2, 3), Some(1)),
    ];
    let ranks = ranks_of(&[0f64, 1f64]);
    let top = 5;

    let result = extract_keywords(&matches, &ranks, top);

    assert_eq!(
        result,
        vec![
            matches[2].clone(),
            matches[1].clone(),
            matches[0].clone()
        ]
    )
}

#[test]
fn keywords_of_equal_rank_keep_their_order() {
    let matches: Vec<Match> = vec![
        Match::new(TextRange::new(0, 1), Some(1)),
        Match::new(TextRange::new(1, 2), Some(0)),
        Match::new(TextRange::new(2, 3), Some(2)),
        Match::new(TextRange::new(3, 4), Some(7)),
    ];
    let ranks = ranks_of(&[0.5, 0.5, 2.0]);

    let result = extract_keywords(&matches, &ranks, 3);

    assert_eq!(result, vec![matches[2], matches[0], matches[1]]);
}

#[test]
fn keywords_with_zero_top_are_empty() {
    let matches: Vec<Match> = vec![Match::new(TextRange::new(0, 1), Some(0))];

    assert!(extract_keywords(&matches, &vec![3], 0).is_empty());
    assert!(extract_keywords(&Vec::new(), &vec![3], 4).is_empty());
}
