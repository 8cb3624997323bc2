use soorch::index::{create_index, Index, SourceFile};
use soorch::rank::{count_documents_with, query_weights, DocumentWeights, TermWeight};
use soorch::service::{run_server, ServiceStatus};

fn index_of(files: &[(&str, &str)]) -> Index {
    let files: Vec<SourceFile> = files
        .iter()
        .map(|(path, text)| SourceFile { path: path.to_string(), text: Some(text.to_string()) })
        .collect();
    create_index(&files).0
}

fn score(doc: &DocumentWeights) -> f32 {
    let mut sum = 0.0f32;
    for w in &doc.weights {
        let tf = if w.document_terms == 0 {
            0.0
        } else {
            w.occurrences as f32 / w.document_terms as f32
        };
        let idf = (w.documents as f32 / w.documents_with_term as f32).log10();
        sum += tf * idf;
    }
    sum
}

#[test]
fn weights_of_one_term_in_two_documents() {
    let index = index_of(&[("a.txt", "cat cat dog"), ("b.txt", "dog dog dog")]);
    let answer = query_weights("cat".to_string(), &index);
    assert_eq!(answer.len(), 2);
    assert_eq!(answer[0].path, "a.txt");
    assert_eq!(answer[1].path, "b.txt");
    assert_eq!(
        answer[0].weights,
        vec![TermWeight { occurrences: 2, document_terms: 3, documents: 2, documents_with_term: 1 }]
    );
    assert_eq!(
        answer[1].weights,
        vec![TermWeight { occurrences: 0, document_terms: 3, documents: 2, documents_with_term: 1 }]
    );
    let a = score(&answer[0]);
    let b = score(&answer[1]);
    assert!((a - 0.2006867).abs() < 1e-5);
    assert_eq!(b, 0.0);
    assert!(a > b);
}

#[test]
fn document_frequency_counts_holders() {
    let index = index_of(&[("a", "cat dog"), ("b", "dog"), ("c", "dog bird"), ("d", "")]);
    assert_eq!(count_documents_with(&index, "dog"), 3);
    assert_eq!(count_documents_with(&index, "cat"), 1);
    assert_eq!(count_documents_with(&index, "fish"), 0);
}

#[test]
fn absent_terms_weigh_nothing_and_every_document_answers() {
    let index = index_of(&[("a", "cat dog"), ("b", "dog"), ("c", "")]);
    let answer = query_weights("fish, whale!".to_string(), &index);
    assert_eq!(answer.len(), 3);
    let paths: Vec<&str> = answer.iter().map(|d| d.path.as_str()).collect();
    assert_eq!(paths, vec!["a", "b", "c"]);
    for doc in &answer {
        assert_eq!(doc.weights.len(), 2);
        for w in &doc.weights {
            assert_eq!(w.occurrences, 0);
            assert_eq!(w.documents, 3);
            assert_eq!(w.documents_with_term, 1);
        }
        assert_eq!(score(doc), 0.0);
    }
}

#[test]
fn a_single_document_scores_finite_and_not_negative() {
    let index = index_of(&[("only", "cat dog cat")]);
    for phrase in ["cat", "dog fish", "fish", "cat cat cat"] {
        let answer = query_weights(phrase.to_string(), &index);
        assert_eq!(answer.len(), 1);
        assert_eq!(answer[0].path, "only");
        for w in &answer[0].weights {
            assert_eq!(w.documents, 1);
            assert_eq!(w.documents_with_term, 1);
            assert!(w.occurrences <= w.document_terms);
        }
        let s = score(&answer[0]);
        assert!(s.is_finite());
        assert!(s >= 0.0);
    }
}

#[test]
fn a_repeated_query_term_is_weighed_each_time() {
    let index = index_of(&[("a", "cat dog"), ("b", "dog")]);
    let answer = query_weights("cat <x> cat dog".to_string(), &index);
    assert_eq!(answer[0].weights.len(), 3);
    assert_eq!(answer[0].weights[0], answer[0].weights[1]);
    assert_eq!(
        answer[0].weights[2],
        TermWeight { occurrences: 1, document_terms: 2, documents: 2, documents_with_term: 2 }
    );
    assert_eq!(
        answer[1].weights[0],
        TermWeight { occurrences: 0, document_terms: 1, documents: 2, documents_with_term: 1 }
    );
}

#[test]
fn a_query_without_terms_has_no_weights() {
    let index = index_of(&[("a", "cat"), ("b", "dog")]);
    let answer = query_weights("<cat> ...".to_string(), &index);
    assert_eq!(answer.len(), 2);
    assert!(answer.iter().all(|d| d.weights.is_empty()));
}

#[test]
fn an_empty_index_answers_with_nothing() {
    let index = Index::new();
    assert!(query_weights("cat".to_string(), &index).is_empty());
    assert_eq!(count_documents_with(&index, "cat"), 0);
}

#[test]
fn a_document_without_terms_has_zero_document_terms() {
    let index = index_of(&[("blank", "..."), ("full", "cat")]);
    let answer = query_weights("cat".to_string(), &index);
    assert_eq!(
        answer[0].weights,
        vec![TermWeight { occurrences: 0, document_terms: 0, documents: 2, documents_with_term: 1 }]
    );
    assert_eq!(score(&answer[0]), 0.0);
}

#[test]
fn the_query_service_is_unavailable() {
    let status = run_server(&"docs".to_string(), &"127.0.0.1:8080".to_string());
    assert_eq!(status, ServiceStatus::Unavailable);
}
