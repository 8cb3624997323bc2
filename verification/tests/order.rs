use soorch::index::{create_index, SourceFile};
use soorch::order::{path_comes_first, rank_documents, ScoredDocument};
use soorch::rank::query_weights;

fn doc(path: &str, score: u32) -> ScoredDocument {
    ScoredDocument { path: path.to_string(), score }
}

fn order(docs: Vec<ScoredDocument>) -> Vec<(String, u32)> {
    rank_documents(docs).into_iter().map(|d| (d.path, d.score)).collect()
}

fn chars(text: &str) -> Vec<char> {
    text.chars().collect()
}

#[test]
fn the_highest_score_comes_first() {
    let ranked = order(vec![doc("a", 1), doc("b", 7), doc("c", 0), doc("d", 3)]);
    assert_eq!(
        ranked,
        vec![
            ("b".to_string(), 7),
            ("d".to_string(), 3),
            ("a".to_string(), 1),
            ("c".to_string(), 0)
        ]
    );
}

#[test]
fn the_path_decides_only_among_equal_scores() {
    let ranked = order(vec![doc("z", 5), doc("b", 2), doc("a", 2), doc("y", 9), doc("ab", 2)]);
    let paths: Vec<&str> = ranked.iter().map(|d| d.0.as_str()).collect();
    assert_eq!(paths, vec!["y", "z", "a", "ab", "b"]);
}

#[test]
fn ranking_keeps_every_document() {
    let ranked = order(vec![doc("a", 1), doc("a", 1), doc("b", 1), doc("a", 4)]);
    assert_eq!(
        ranked,
        vec![
            ("a".to_string(), 4),
            ("a".to_string(), 1),
            ("a".to_string(), 1),
            ("b".to_string(), 1)
        ]
    );
    assert!(order(Vec::new()).is_empty());
}

#[test]
fn the_order_does_not_depend_on_the_order_given() {
    let one = order(vec![doc("a", 1), doc("b", 1), doc("c", 2)]);
    let other = order(vec![doc("c", 2), doc("b", 1), doc("a", 1)]);
    assert_eq!(one, other);
}

#[test]
fn paths_compare_as_strings_do() {
    let samples = ["", "a", "ab", "b", "B", "a.txt", "a/b", "caf\u{e9}", "cafe", "\u{4e2d}", "z"];
    for left in samples {
        for right in samples {
            assert_eq!(path_comes_first(&chars(left), &chars(right)), left <= right);
        }
    }
}

#[test]
fn score_bits_order_as_scores_do() {
    let scores = [0.0f32, 1.0e-30, 0.2006867, 0.3, 1.0, 17.5];
    let docs: Vec<ScoredDocument> =
        scores.iter().enumerate().map(|(i, s)| doc(&format!("d{}", i), s.to_bits())).collect();
    let ranked = rank_documents(docs);
    let back: Vec<f32> = ranked.iter().map(|d| f32::from_bits(d.score)).collect();
    assert_eq!(back, vec![17.5, 1.0, 0.3, 0.2006867, 1.0e-30, 0.0]);
}

#[test]
fn the_document_that_holds_the_term_ranks_first() {
    let files = vec![
        SourceFile { path: "b.txt".to_string(), text: Some("dog dog dog".to_string()) },
        SourceFile { path: "a.txt".to_string(), text: Some("cat cat dog".to_string()) },
    ];
    let (index, _) = create_index(&files);
    let scored: Vec<ScoredDocument> = query_weights("cat".to_string(), &index)
        .into_iter()
        .map(|d| {
            let mut score = 0.0f32;
            for w in &d.weights {
                let tf = if w.document_terms == 0 {
                    0.0
                } else {
                    w.occurrences as f32 / w.document_terms as f32
                };
                score += tf * (w.documents as f32 / w.documents_with_term as f32).log10();
            }
            ScoredDocument { path: d.path, score: score.to_bits() }
        })
        .collect();
    let ranked = rank_documents(scored);
    assert_eq!(ranked[0].path, "a.txt");
    assert_eq!(ranked[1].path, "b.txt");
    assert!((f32::from_bits(ranked[0].score) - 0.2006867).abs() < 1e-5);
    assert_eq!(f32::from_bits(ranked[1].score), 0.0);
}
