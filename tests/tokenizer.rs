use searchdex::lexer::Lexer;

fn chars(s: &str) -> Vec<char> {
    s.chars().collect()
}

fn all_tokens(s: &str) -> Vec<String> {
    let input = chars(s);
    let mut lex = Lexer::new(&input);
    let mut out = Vec::new();
    while let Some(t) = lex.next_token() {
        out.push(t.iter().collect::<String>());
    }
    out
}

#[test]
fn splits_words_numbers_and_punctuation() {
    assert_eq!(all_tokens("  cat, dog42 7x!"), vec!["cat", ",", "dog42", "7", "x", "!"]);
}

#[test]
fn empty_and_blank_input_yield_nothing() {
    assert!(all_tokens("").is_empty());
    assert!(all_tokens(" \t\n\r ").is_empty());
}

#[test]
fn words_keep_backslashes_and_unicode_letters() {
    assert_eq!(all_tokens("caf\\u00e9 héllo wörld"), vec!["caf\\u00e9", "héllo", "wörld"]);
}

#[test]
fn numbers_stop_at_letters() {
    assert_eq!(all_tokens("123abc 4.5"), vec!["123", "abc", "4", ".", "5"]);
}

#[test]
fn tokens_rebuild_the_non_whitespace_text() {
    let text = "  The quick (brown) fox\tjumps 12 times;\nover 3 dogs. ";
    let joined: String = all_tokens(text).concat();
    let expected: String = text.chars().filter(|c| !c.is_ascii_whitespace()).collect();
    assert_eq!(joined, expected);
}

#[test]
fn exhausted_lexer_stays_exhausted() {
    let input = chars("a");
    let mut lex = Lexer::new(&input);
    assert_eq!(lex.next_token().map(|t| t.to_vec()), Some(vec!['a']));
    assert!(lex.next_token().is_none());
    assert!(lex.next_token().is_none());
}

fn decoded_tokens(s: &str) -> Vec<String> {
    let input = chars(s);
    let mut lex = Lexer::new(&input);
    let mut out = Vec::new();
    while let Some(t) = lex.next_decoded_token() {
        out.push(t.iter().collect::<String>());
    }
    out
}

#[test]
fn decoded_tokens_turn_escape_runs_into_characters() {
    assert_eq!(decoded_tokens("caf\\u00c3\\u00a9 x"), vec!["café", "x"]);
    assert_eq!(decoded_tokens("\\u0041bc"), vec!["\\", "u0041bc"]);
    assert_eq!(decoded_tokens("a\\u0041bc"), vec!["aAbc"]);
}

#[test]
fn undecodable_escapes_fall_back_to_raw_characters() {
    assert_eq!(decoded_tokens("a\\u00zzb"), vec!["a\\u00zzb"]);
    assert_eq!(decoded_tokens("a\\u00c3b"), vec!["a\\u00c3b"]);
    assert_eq!(decoded_tokens("a\\u01ffb"), vec!["a\\u01ffb"]);
}
