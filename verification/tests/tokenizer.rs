use soorch::tokenizer::tokenize;

fn terms(text: &str) -> Vec<String> {
    tokenize(text.to_string())
}

#[test]
fn empty_text_has_no_terms() {
    assert!(terms("").is_empty());
}

#[test]
fn punctuation_alone_has_no_terms() {
    assert!(terms("!?., ;:--- ()[]").is_empty());
}

#[test]
fn markup_spans_are_elided() {
    assert_eq!(terms("<b>hello</b> world"), vec!["hello", "world"]);
}

#[test]
fn unclosed_span_swallows_the_rest() {
    assert_eq!(terms("abc <def ghi"), vec!["abc"]);
    assert!(terms("<").is_empty());
}

#[test]
fn only_the_first_closing_bracket_ends_a_span() {
    assert_eq!(terms("<a <b> c> d"), vec!["c", "d"]);
}

#[test]
fn a_span_right_behind_a_term_is_elided_whole() {
    assert_eq!(terms("a<b>c"), vec!["a", "c"]);
}

#[test]
fn terms_keep_case_and_digits() {
    assert_eq!(terms("Hello, World42! hello"), vec!["Hello", "World42", "hello"]);
}

#[test]
fn terms_follow_unicode_classes() {
    assert_eq!(terms("caf\u{e9} na\u{ef}ve\u{2014}\u{4e2d}\u{6587} x\u{b2}"), vec![
        "caf\u{e9}",
        "na\u{ef}ve",
        "\u{4e2d}\u{6587}",
        "x\u{b2}"
    ]);
}

#[test]
fn repeated_terms_are_kept() {
    assert_eq!(terms("to be or not to be"), vec!["to", "be", "or", "not", "to", "be"]);
}

#[test]
fn a_lone_closing_bracket_is_passed_over() {
    assert_eq!(terms("a > b"), vec!["a", "b"]);
}

#[test]
fn an_unclosed_span_leaves_the_terms_before_it() {
    for (before, rest) in [
        ("abc def", "ghi jkl"),
        ("abc", ""),
        ("", "abc"),
        ("a > b ", "c <d e"),
        ("x1,y2", " z3 < w4"),
    ] {
        let text = format!("{}<{}", before, rest);
        assert_eq!(terms(&text), terms(before));
    }
}

#[test]
fn ascii_letters_and_digits_are_the_ascii_term_characters() {
    for code in 0u8..128 {
        let c = code as char;
        let expected = c.is_ascii_digit() || c.is_ascii_uppercase() || c.is_ascii_lowercase();
        let found = terms(&c.to_string());
        if expected {
            assert_eq!(found, vec![c.to_string()]);
        } else {
            assert!(found.is_empty());
        }
    }
}
