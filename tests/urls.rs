use lexer::{Lexem, Lexer};

fn urls(input: &str) -> Vec<String> {
    let mut lexer = Lexer::new();
    lexer.lex(input);
    lexer
        .lexems()
        .iter()
        .map(|l| match l {
            Lexem::Url(u) => u.clone(),
            _ => panic!("Expected URL lexem"),
        })
        .collect()
}

#[test]
fn whitespace_only_gives_nothing() {
    assert!(urls(" \t\n\r\x0c  \n").is_empty());
}

#[test]
fn empty_body_is_a_url() {
    assert_eq!(urls("http://"), vec!["http://".to_string()]);
    assert_eq!(urls("https:// x"), vec!["https://".to_string()]);
}

#[test]
fn scheme_cut_at_end_gives_nothing() {
    assert!(urls("http:/").is_empty());
    assert!(urls("a b https:").is_empty());
    assert!(urls("h").is_empty());
}

#[test]
fn broken_scheme_gives_nothing() {
    assert!(urls("hxyz htp://x httpx://y http//z").is_empty());
}

#[test]
fn body_runs_to_whitespace() {
    assert_eq!(
        urls("see https://e.x/a?b=1&c=-2.5#f\tthen"),
        vec!["https://e.x/a?b=1&c=-2.5#f".to_string()]
    );
}

#[test]
fn url_glued_to_text_after_failed_attempt() {
    // "hhttp://x": the first 'h' fails on the second 'h', which then starts a URL.
    assert_eq!(urls("hhttp://x"), vec!["http://x".to_string()]);
}

#[test]
fn independent_sessions_agree() {
    let input = " -1.5e3 http://a.b 7 .x https://c ";
    let mut first = Lexer::new();
    first.lex(input);
    let mut second = Lexer::new();
    second.lex(input);
    assert_eq!(first.lexems(), second.lexems());
    assert_eq!(first.lexems().len(), 4);
}

#[test]
fn second_lex_continues_from_cursor() {
    let mut lexer = Lexer::new();
    lexer.lex("http://a");
    lexer.lex("http://b");
    assert_eq!(lexer.lexems().len(), 1);
    lexer.lex("0123456789 http://c");
    // The cursor stood at 8, so this scan starts at the digit '8'.
    assert_eq!(lexer.lexems().len(), 3);
    match &lexer.lexems()[1] {
        Lexem::Number(n) => assert_eq!(n.int_digits, vec![8, 9]),
        _ => panic!("Expected number lexem"),
    }
    match &lexer.lexems()[2] {
        Lexem::Url(u) => assert_eq!(u, "http://c"),
        _ => panic!("Expected URL lexem"),
    }
}
