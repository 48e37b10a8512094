use seroost::lexer::{tokenize, Lexer};

fn chars(s: &str) -> Vec<char> {
    s.chars().collect()
}

fn terms(s: &str) -> Vec<String> {
    tokenize(&chars(s))
}

#[test]
fn words_are_folded_and_symbols_stand_alone() {
    assert_eq!(terms("Rust2 is GREAT!"), vec!["rust2", "is", "great", "!"]);
}

#[test]
fn digit_run_stops_at_letter() {
    assert_eq!(terms("2fast"), vec!["2", "fast"]);
}

#[test]
fn empty_and_blank_inputs_have_no_terms() {
    assert!(terms("").is_empty());
    assert!(terms(" \t\n  \r ").is_empty());
}

#[test]
fn non_ascii_letters_are_not_folded() {
    assert_eq!(terms("ÄBC Über"), vec!["Äbc", "Über"]);
}

#[test]
fn numbers_and_punctuation() {
    assert_eq!(terms("x=42;  (y)"), vec!["x", "=", "42", ";", "(", "y", ")"]);
    assert_eq!(terms("3.14"), vec!["3", ".", "14"]);
}

#[test]
fn next_token_walks_the_input_once() {
    let input = chars("  ab 12 ");
    let mut lexer = Lexer::new(&input);
    assert_eq!(lexer.next_token(), Some("ab".to_string()));
    assert_eq!(lexer.next(), Some("12".to_string()));
    assert_eq!(lexer.next_token(), None);
    assert_eq!(lexer.next_token(), None);
}

#[test]
fn chop_and_trim_consume_spans_left_to_right() {
    let input = chars("   hello, world");
    let mut lexer = Lexer::new(&input);
    lexer.trim_left();
    let word = lexer.chop_while(|c| c.is_alphanumeric());
    assert_eq!(word.iter().collect::<String>(), "hello");
    let comma = lexer.chop(1);
    assert_eq!(comma, &[',']);
    lexer.trim_left();
    assert_eq!(lexer.next_token(), Some("world".to_string()));
    assert_eq!(lexer.next_token(), None);
}

#[test]
fn consumed_spans_cover_the_input() {
    // Token spans and whitespace runs account for every character once.
    let input = " Ab1 ,  7x \t";
    let toks = terms(input);
    assert_eq!(toks, vec!["ab1", ",", "7", "x"]);
    let token_chars: usize = toks.iter().map(|t| t.chars().count()).sum();
    let blank_chars = input.chars().filter(|c| c.is_whitespace()).count();
    assert_eq!(token_chars + blank_chars, input.chars().count());
    let joined: String = toks.concat();
    let squeezed: String = input.chars().filter(|c| !c.is_whitespace()).collect::<String>().to_ascii_lowercase();
    assert_eq!(joined, squeezed);
}
