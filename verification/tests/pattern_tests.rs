//! Positional intersection and pattern matching.

use stract::pattern::{PatternPart, PatternQuery, PatternScorer, SmallPatternPart};
use stract::positions::intersection_with_slop;

fn aux_intersection(left: &[u32], right: &[u32], expected: &[u32], slop: u32) {
    let left: Vec<u32> = left.to_vec();
    let right: Vec<u32> = right.to_vec();
    let mut out: Vec<u32> = Vec::new();
    let intersection_size = intersection_with_slop(&left, &right, &mut out, slop);
    assert_eq!(intersection_size, out.len());
    assert_eq!(&out[..], expected);
}

#[test]
fn test_intersection_with_slop() {
    aux_intersection(&[20, 75, 77], &[18, 21, 60], &[21, 60], u32::MAX);
    aux_intersection(&[21, 60], &[50, 61], &[61], 1);

    aux_intersection(&[1, 2, 3], &[], &[], 1);
    aux_intersection(&[], &[1, 2, 3], &[], 1);

    aux_intersection(&[1, 2, 3], &[4, 5, 6], &[4], 1);
    aux_intersection(&[1, 2, 3], &[4, 5, 6], &[4, 5, 6], u32::MAX);

    aux_intersection(&[20, 75, 77], &[18, 21, 60], &[21, 60], u32::MAX);
    aux_intersection(&[21, 60], &[61, 62], &[61, 62], 2);

    aux_intersection(&[60], &[61, 62], &[61, 62], 2);
}

#[test]
fn pattern_without_raw_terms_matches_nothing() {
    // an all-wildcard pattern has no raw terms and rejects everything
    let mut scorer = PatternScorer::new(vec![
        SmallPatternPart::Wildcard,
        SmallPatternPart::Wildcard,
    ]);
    let positions: Vec<Vec<u32>> = Vec::new();
    assert!(!scorer.pattern_match(&positions, 10));
    assert_eq!(scorer.phrase_count(), 0);

    let mut empty = PatternScorer::new(Vec::new());
    assert!(!empty.pattern_match(&Vec::new(), 10));
}

#[test]
fn leading_anchor_rejects_unanchored_match() {
    // `|term`: the first matched token must be the document's first token
    let mut scorer = PatternScorer::new(vec![
        SmallPatternPart::Anchor,
        SmallPatternPart::Term,
    ]);
    let positions = vec![vec![3u32, 7]];
    assert!(!scorer.pattern_match(&positions, 10));

    let mut scorer = PatternScorer::new(vec![
        SmallPatternPart::Anchor,
        SmallPatternPart::Term,
    ]);
    let positions = vec![vec![0u32, 7]];
    assert!(scorer.pattern_match(&positions, 10));
}

#[test]
fn trailing_anchor_accepts_single_token_document() {
    // `term|` in a one-token document matching at position zero
    let mut scorer = PatternScorer::new(vec![
        SmallPatternPart::Term,
        SmallPatternPart::Anchor,
    ]);
    let positions = vec![vec![0u32]];
    assert!(scorer.pattern_match(&positions, 1));
    assert_eq!(scorer.phrase_count(), 1);

    // but a two-token document whose match stops early rejects
    let mut scorer = PatternScorer::new(vec![
        SmallPatternPart::Term,
        SmallPatternPart::Anchor,
    ]);
    let positions = vec![vec![0u32]];
    assert!(!scorer.pattern_match(&positions, 2));
}

#[test]
fn ordered_terms_with_wildcard_gap() {
    // "a * b": the second term may come at any later position
    let mut scorer = PatternScorer::new(vec![
        SmallPatternPart::Term,
        SmallPatternPart::Wildcard,
        SmallPatternPart::Term,
    ]);
    let positions = vec![vec![2u32], vec![40u32]];
    assert!(scorer.pattern_match(&positions, 50));
    assert_eq!(scorer.phrase_count(), 1);

    // adjacent terms ("a b") demand a gap of one
    let mut scorer = PatternScorer::new(vec![
        SmallPatternPart::Term,
        SmallPatternPart::Term,
    ]);
    let positions = vec![vec![2u32], vec![40u32]];
    assert!(!scorer.pattern_match(&positions, 50));
}

#[test]
fn pattern_compiles_one_step_per_part() {
    let parts = vec![
        PatternPart::Raw(b"hello world".to_vec()),
        PatternPart::Wildcard,
        PatternPart::Raw(b"x".to_vec()),
        PatternPart::Anchor,
    ];
    let q = PatternQuery::new(&parts);
    // one walk step per part, however many tokens a raw part carries
    assert_eq!(
        q.patterns,
        vec![
            SmallPatternPart::Term,
            SmallPatternPart::Wildcard,
            SmallPatternPart::Term,
            SmallPatternPart::Anchor,
        ]
    );
    // every token still joins the flat term list
    assert_eq!(
        q.raw_terms,
        vec![b"hello".to_vec(), b"world".to_vec(), b"x".to_vec()]
    );
}
