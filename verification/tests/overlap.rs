use grex::config::RegExpConfig;
use grex::grapheme::{Grapheme, GraphemeOverlapState};

#[test]
fn test_overlap_same() {
    let config = RegExpConfig::new();
    let chars = vec![String::from("a")];

    let grapheme1 = Grapheme::new(chars, 0, 0, &config);

    assert_eq!(
        grapheme1.overlap_with(&grapheme1),
        Some(vec![(grapheme1, GraphemeOverlapState::Overlap),])
    );
}

#[test]
fn test_overlap_disjoint() {
    let config = RegExpConfig::new();
    let chars = vec![String::from("a")];

    let grapheme1 = Grapheme::new(chars.clone(), 0, 0, &config);
    let grapheme2 = Grapheme::new(chars, 10, 10, &config);

    assert_eq!(
        grapheme2.overlap_with(&grapheme1),
        Some(vec![
            (grapheme1, GraphemeOverlapState::Right),
            (grapheme2, GraphemeOverlapState::Left)
        ])
    );
}

#[test]
fn test_overlap_initial_match() {
    let config = RegExpConfig::new();
    let chars = vec![String::from("a")];

    let grapheme1 = Grapheme::new(chars.clone(), 0, 0, &config);
    let grapheme2 = Grapheme::new(chars.clone(), 0, 1, &config);

    assert_eq!(
        grapheme1.overlap_with(&grapheme2),
        Some(vec![
            (grapheme1, GraphemeOverlapState::Overlap),
            (
                Grapheme::new(chars, 1, 1, &config),
                GraphemeOverlapState::Right
            )
        ])
    );
}

#[test]
fn test_overlap_initial_non_match() {
    let config = RegExpConfig::new();
    let chars = vec![String::from("a")];

    let grapheme1 = Grapheme::new(chars.clone(), 0, 10, &config);
    let grapheme2 = Grapheme::new(chars.clone(), 5, 15, &config);

    assert_eq!(
        grapheme1.overlap_with(&grapheme2),
        Some(vec![
            (
                Grapheme::new(chars.clone(), 0, 4, &config),
                GraphemeOverlapState::Left
            ),
            (
                Grapheme::new(chars.clone(), 5, 10, &config),
                GraphemeOverlapState::Overlap
            ),
            (
                Grapheme::new(chars, 11, 15, &config),
                GraphemeOverlapState::Right
            ),
        ])
    );
}

#[test]
fn test_overlap_fully_contained() {
    let config = RegExpConfig::new();
    let chars = vec![String::from("a")];

    let grapheme1 = Grapheme::new(chars.clone(), 0, 15, &config);
    let grapheme2 = Grapheme::new(chars.clone(), 5, 10, &config);

    assert_eq!(
        grapheme1.overlap_with(&grapheme2),
        Some(vec![
            (
                Grapheme::new(chars.clone(), 0, 4, &config),
                GraphemeOverlapState::Left
            ),
            (
                Grapheme::new(chars.clone(), 5, 10, &config),
                GraphemeOverlapState::Overlap
            ),
            (
                Grapheme::new(chars, 11, 15, &config),
                GraphemeOverlapState::Left
            ),
        ])
    );
}

#[test]
fn test_overlap_symmetry_flips_tags() {
    let config = RegExpConfig::new();
    let chars = vec![String::from("a")];

    let grapheme1 = Grapheme::new(chars.clone(), 0, 10, &config);
    let grapheme2 = Grapheme::new(chars, 5, 15, &config);

    let forward = grapheme1.overlap_with(&grapheme2).unwrap();
    let backward = grapheme2.overlap_with(&grapheme1).unwrap();

    assert_eq!(forward.len(), backward.len());
    for (one, other) in forward.iter().zip(backward.iter()) {
        assert_eq!(one.0, other.0);
        let flipped = match other.1 {
            GraphemeOverlapState::Left => GraphemeOverlapState::Right,
            GraphemeOverlapState::Right => GraphemeOverlapState::Left,
            GraphemeOverlapState::Overlap => GraphemeOverlapState::Overlap,
        };
        assert_eq!(one.1, flipped);
    }
}

#[test]
fn test_overlap_pieces_cover_union_disjointly() {
    let config = RegExpConfig::new();
    let chars = vec![String::from("a")];

    let grapheme1 = Grapheme::new(chars.clone(), 2, 9, &config);
    let grapheme2 = Grapheme::new(chars, 4, 12, &config);

    let pieces = grapheme1.overlap_with(&grapheme2).unwrap();
    for window in pieces.windows(2) {
        assert!(window[0].0.maximum() < window[1].0.minimum());
    }
    for n in 0..16u32 {
        let in_union = (2..=9).contains(&n) || (4..=12).contains(&n);
        let covered = pieces
            .iter()
            .filter(|piece| piece.0.minimum() <= n && n <= piece.0.maximum())
            .count();
        assert_eq!(covered, if in_union { 1 } else { 0 });
    }
}

#[test]
fn test_overlap_different_content() {
    let config = RegExpConfig::new();

    let grapheme1 = Grapheme::new(vec![String::from("a")], 0, 3, &config);
    let grapheme2 = Grapheme::new(vec![String::from("b")], 0, 3, &config);

    assert_eq!(grapheme1.overlap_with(&grapheme2), None);
}
