use soorch::counts::count_terms;
use soorch::index::{assemble_index, count_file, create_index, Index, SourceFile};

fn file(path: &str, text: Option<&str>) -> SourceFile {
    SourceFile { path: path.to_string(), text: text.map(|t| t.to_string()) }
}

fn paths(index: &Index) -> Vec<String> {
    (0..index.len()).map(|i| index.path(i).clone()).collect()
}

#[test]
fn unreadable_files_are_left_out_and_counted() {
    let files = vec![
        file("a.txt", Some("cat cat dog")),
        file("broken.bin", None),
        file("b.txt", Some("dog dog dog")),
        file("other.bin", None),
        file("empty.txt", Some("")),
    ];
    let (index, skipped) = create_index(&files);
    assert_eq!(index.len(), 3);
    assert_eq!(skipped, 2);
    assert_eq!(paths(&index), vec!["a.txt", "b.txt", "empty.txt"]);
    assert!(index.get("broken.bin").is_none());
    assert!(index.get("other.bin").is_none());
    let a = index.get("a.txt").unwrap();
    assert_eq!(a.count("cat"), 2);
    assert_eq!(a.count("dog"), 1);
    assert_eq!(a.total(), 3);
    assert_eq!(index.get("b.txt").unwrap().count("dog"), 3);
    assert_eq!(index.get("empty.txt").unwrap().len(), 0);
}

#[test]
fn no_files_give_an_empty_index() {
    let (index, skipped) = create_index(&Vec::new());
    assert_eq!(index.len(), 0);
    assert_eq!(skipped, 0);
}

#[test]
fn the_index_does_not_depend_on_file_order() {
    let one = vec![
        file("a.txt", Some("cat cat dog")),
        file("x", None),
        file("b.txt", Some("dog <b>bird</b>")),
        file("c.txt", Some("fish")),
    ];
    let other = vec![
        file("c.txt", Some("fish")),
        file("b.txt", Some("dog <b>bird</b>")),
        file("a.txt", Some("cat cat dog")),
        file("x", None),
    ];
    let (first, skipped_first) = create_index(&one);
    let (second, skipped_second) = create_index(&other);
    assert_eq!(skipped_first, skipped_second);
    assert_eq!(first.len(), second.len());
    let mut first_paths = paths(&first);
    let mut second_paths = paths(&second);
    first_paths.sort();
    second_paths.sort();
    assert_eq!(first_paths, second_paths);
    for path in &first_paths {
        let left = first.get(path).unwrap();
        let right = second.get(path).unwrap();
        assert_eq!(left.len(), right.len());
        assert_eq!(left.total(), right.total());
        for i in 0..left.len() {
            assert_eq!(left.count(left.term(i)), right.count(left.term(i)));
        }
    }
}

#[test]
fn building_twice_gives_the_same_index() {
    let files = vec![file("a", Some("x y x")), file("b", Some("y")), file("c", None)];
    let (first, _) = create_index(&files);
    let (second, _) = create_index(&files);
    assert_eq!(paths(&first), paths(&second));
    for path in paths(&first) {
        let left = first.get(&path).unwrap();
        let right = second.get(&path).unwrap();
        assert_eq!(left.total(), right.total());
        for i in 0..left.len() {
            assert_eq!(left.term(i), right.term(i));
            assert_eq!(left.count(left.term(i)), right.count(right.term(i)));
        }
    }
}

#[test]
fn a_later_document_replaces_one_with_the_same_path() {
    let mut index = Index::new();
    index.insert("a".to_string(), count_terms("one two"));
    index.insert("b".to_string(), count_terms("three"));
    index.insert("a".to_string(), count_terms("four four"));
    assert_eq!(index.len(), 2);
    assert_eq!(paths(&index), vec!["a", "b"]);
    let a = index.get("a").unwrap();
    assert_eq!(a.count("four"), 2);
    assert_eq!(a.count("one"), 0);
}

#[test]
fn counting_file_by_file_and_assembling_gives_the_same_index() {
    let texts = [
        ("a.txt", Some("cat cat dog")),
        ("broken.bin", None),
        ("b.txt", Some("dog <b>bird</b>")),
        ("a.txt", Some("fish")),
        ("empty", Some("")),
    ];
    let files: Vec<SourceFile> = texts.iter().map(|(p, t)| file(p, *t)).collect();
    let (whole, skipped_whole) = create_index(&files);
    let counted = texts.iter().map(|(p, t)| count_file(file(p, *t))).collect();
    let (assembled, skipped) = assemble_index(counted);
    assert_eq!(skipped, 1);
    assert_eq!(skipped, skipped_whole);
    assert_eq!(paths(&assembled), vec!["a.txt", "b.txt", "empty"]);
    assert_eq!(paths(&assembled), paths(&whole));
    assert_eq!(assembled.entries(), whole.entries());
    assert_eq!(assembled.get("a.txt").unwrap().count("fish"), 1);
    assert_eq!(assembled.get("a.txt").unwrap().count("cat"), 0);
}

#[test]
fn a_counted_file_keeps_its_path_and_counts_its_text() {
    let done = count_file(file("a.txt", Some("cat cat dog")));
    assert_eq!(done.path, "a.txt");
    let counts = done.counts.unwrap();
    assert_eq!(counts.count("cat"), 2);
    assert_eq!(counts.total(), 3);
    let left_out = count_file(file("b.bin", None));
    assert_eq!(left_out.path, "b.bin");
    assert!(left_out.counts.is_none());
}
