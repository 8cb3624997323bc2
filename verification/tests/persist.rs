use soorch::index::{create_index, Index, SourceFile};
use soorch::persist::{render_index, rendered, RenderError};
use std::collections::BTreeMap;

fn index_of(files: &[(&str, &str)]) -> Index {
    let files: Vec<SourceFile> = files
        .iter()
        .map(|(path, text)| SourceFile { path: path.to_string(), text: Some(text.to_string()) })
        .collect();
    create_index(&files).0
}

#[test]
fn renders_documents_and_counts_as_nested_objects() {
    let index = index_of(&[("a.txt", "cat dog cat"), ("b.txt", "dog dog dog")]);
    let text = render_index(&index).unwrap();
    let expected = "{\n  \"a.txt\": {\n    \"cat\": 2,\n    \"dog\": 1\n  },\n  \"b.txt\": {\n    \"dog\": 3\n  }\n}";
    assert_eq!(text, expected);
}

#[test]
fn rendering_does_not_depend_on_document_order() {
    let one = index_of(&[("b", "y x y"), ("a", "z")]);
    let other = index_of(&[("a", "z"), ("b", "x y y")]);
    assert_eq!(render_index(&one).unwrap(), render_index(&other).unwrap());
}

#[test]
fn rendered_text_reads_back_as_the_same_mapping() {
    let index = index_of(&[("a.txt", "cat dog cat"), ("empty", "..."), ("q\"uote", "caf\u{e9}")]);
    let text = render_index(&index).unwrap();
    let back: BTreeMap<String, BTreeMap<String, usize>> = serde_json::from_str(&text).unwrap();
    assert_eq!(back.len(), index.len());
    for (path, counts) in &back {
        let table = index.get(path).unwrap();
        assert_eq!(counts.len(), table.len());
        for (term, count) in counts {
            assert_eq!(table.count(term), *count);
        }
    }
}

#[test]
fn an_empty_index_renders_as_an_empty_object() {
    assert_eq!(render_index(&Index::new()).unwrap(), "{}");
}

#[test]
fn entries_list_documents_and_terms_in_order() {
    let index = index_of(&[("b", "y x y"), ("a", "z")]);
    let entries = index.entries();
    assert_eq!(
        entries,
        vec![
            ("b".to_string(), vec![("y".to_string(), 2), ("x".to_string(), 1)]),
            ("a".to_string(), vec![("z".to_string(), 1)]),
        ]
    );
}

#[test]
fn a_serializer_error_is_reported_as_such() {
    let error = serde_json::from_str::<usize>("not json").unwrap_err();
    assert_eq!(rendered(Err(error)), Err(RenderError::Serialization));
    assert_eq!(rendered(Ok("{}".to_string())), Ok("{}".to_string()));
}

#[test]
fn every_index_has_a_text() {
    for files in [
        vec![],
        vec![("a", "")],
        vec![("a", "x"), ("b", "x y x"), ("c", "<z>")],
        vec![("same", "one"), ("same", "two two")],
    ] {
        let index = index_of(&files);
        assert!(render_index(&index).is_ok());
    }
}

#[test]
fn a_replaced_document_is_rendered_once() {
    let index = index_of(&[("same", "one"), ("same", "two two")]);
    assert_eq!(render_index(&index).unwrap(), "{\n  \"same\": {\n    \"two\": 2\n  }\n}");
}
