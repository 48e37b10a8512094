use seroost::extract::{
    code_line_matches, code_listing, contains_run, decimal_digits, fold_letters, join_pages,
    join_spaced, join_xml_text, number_lines, pdf_page_limit, xml_text_content, ExtractError,
    MAX_PAGES,
};

fn chars(s: &str) -> Vec<char> {
    s.chars().collect()
}

#[test]
fn plain_text_letters_are_folded() {
    assert_eq!(fold_letters("Hello, WORLD 42 Ä"), "hello, world 42 Ä");
    assert_eq!(fold_letters(""), "");
}

#[test]
fn xml_runs_are_joined() {
    let events = vec![None, Some("Hello".to_string()), None, Some("World!".to_string())];
    assert_eq!(join_xml_text(&events), "hello world! ");
    assert_eq!(
        xml_text_content(b"<a>Hello <b>World</b></a>").unwrap(),
        "hello  world "
    );
}

#[test]
fn malformed_xml_is_an_error() {
    assert_eq!(xml_text_content(b"<a><b></a>"), Err(ExtractError::Xml));
}

#[test]
fn html_body_text_is_spaced() {
    assert_eq!(join_spaced(&vec!["a".to_string(), "b c".to_string()]), "a b c ");
    assert_eq!(join_spaced(&Vec::new()), "");
}

#[test]
fn code_lines_are_numbered() {
    assert_eq!(code_listing("fn main() {\n    run();\n}"), "Line 1: fn main() {\nLine 2:     run();\nLine 3: }\n");
    assert_eq!(code_listing(""), "");
    let many: Vec<String> = (0..12).map(|i| format!("l{i}")).collect();
    let listing = number_lines(&many);
    assert!(listing.ends_with("Line 12: l11\n"));
}

#[test]
fn decimal_digits_of_numbers() {
    assert_eq!(decimal_digits(0), vec!['0']);
    assert_eq!(decimal_digits(7), vec!['7']);
    assert_eq!(decimal_digits(1203), chars("1203"));
    assert_eq!(decimal_digits(usize::MAX), chars(&usize::MAX.to_string()));
}

#[test]
fn matching_code_lines() {
    let text = "let Total = 1;\nprint(total)\nnothing here";
    assert_eq!(
        code_line_matches(text, "TOTAL"),
        vec![(1, "let Total = 1;".to_string()), (2, "print(total)".to_string())]
    );
    assert!(code_line_matches(text, "absent").is_empty());
}

#[test]
fn run_search() {
    assert!(contains_run(&chars("ab"), &chars("xxaby")));
    assert!(contains_run(&chars(""), &chars("")));
    assert!(!contains_run(&chars("abc"), &chars("ab")));
    assert!(!contains_run(&chars("ba"), &chars("aabb")));
}

#[test]
fn pdf_pages() {
    assert_eq!(pdf_page_limit(3), 3);
    assert_eq!(pdf_page_limit(MAX_PAGES), MAX_PAGES);
    assert_eq!(pdf_page_limit(10_000), 450);
    assert_eq!(join_pages(&vec!["Page ONE\n".to_string(), "Two".to_string()]), "page one\ntwo");
    assert_eq!(join_pages(&Vec::new()), "");
}
