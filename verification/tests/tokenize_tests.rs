use sol::tokenize::{tokenize, Span, Token, Tokenizer};

fn sp(start: usize, token: Token<'_>) -> Span<'_> {
    Span { start, token }
}

#[test]
fn tokens_of_a_sequence_definition() {
    let toks = tokenize("seq a { 1 (2 3) }");
    assert_eq!(
        toks,
        vec![
            sp(0, Token::SeqKw),
            sp(4, Token::Literal("a")),
            sp(6, Token::SeqStart),
            sp(8, Token::Figure(1)),
            sp(10, Token::GapStart),
            sp(11, Token::Figure(2)),
            sp(13, Token::Figure(3)),
            sp(14, Token::GapEnd),
            sp(16, Token::SeqEnd),
        ]
    );
}

#[test]
fn keywords_and_names() {
    let toks = tokenize("tal nad sol seq talx");
    let kinds: Vec<Token> = toks.iter().map(|s| s.token).collect();
    assert_eq!(
        kinds,
        vec![Token::TalKw, Token::NadKw, Token::SolKw, Token::SeqKw, Token::Literal("talx")]
    );
}

#[test]
fn brackets_split_words() {
    let toks = tokenize("a{b");
    assert_eq!(
        toks,
        vec![sp(0, Token::Literal("a")), sp(1, Token::SeqStart), sp(2, Token::Literal("b"))]
    );
}

#[test]
fn figures_as_usize_from_str_reads_them() {
    let toks = tokenize("+5 007 99999999999999999999999 -3 +");
    let kinds: Vec<Token> = toks.iter().map(|s| s.token).collect();
    assert_eq!(
        kinds,
        vec![
            Token::Figure(5),
            Token::Figure(7),
            Token::Literal("99999999999999999999999"),
            Token::Literal("-3"),
            Token::Literal("+"),
        ]
    );
}

#[test]
fn offsets_count_bytes_and_unicode_space_separates() {
    let toks = tokenize("1\u{3000}2 é3");
    assert_eq!(
        toks,
        vec![sp(0, Token::Figure(1)), sp(4, Token::Figure(2)), sp(6, Token::Literal("é3"))]
    );
}

#[test]
fn empty_and_blank_sources_have_no_tokens() {
    assert_eq!(tokenize(""), vec![]);
    assert_eq!(tokenize(" \n\t "), vec![]);
}

#[test]
fn tokenizer_hands_out_one_token_at_a_time() {
    let mut t = Tokenizer::from("  ( x");
    assert_eq!(t.next(), Some(sp(2, Token::GapStart)));
    assert_eq!(t.next(), Some(sp(4, Token::Literal("x"))));
    assert_eq!(t.next(), None);
    assert_eq!(t.next(), None);
}

#[test]
fn match_syntax_token_classifies_words() {
    let t = Tokenizer::from("");
    assert_eq!(t.match_syntax_token("{"), Some(Token::SeqStart));
    assert_eq!(t.match_syntax_token("42"), Some(Token::Figure(42)));
    assert_eq!(t.match_syntax_token("sol"), Some(Token::SolKw));
    assert_eq!(t.match_syntax_token("x"), Some(Token::Literal("x")));
}

#[test]
fn token_texts() {
    assert_eq!(Token::Literal("x").to_text(), "token ident(x)");
    assert_eq!(Token::Figure(12).to_text(), "token figure(12)");
    assert_eq!(Token::SeqStart.to_text(), "token seq start");
    assert_eq!(Token::GapEnd.to_text(), "token gap end");
    assert_eq!(Token::SeqKw.to_text(), "token seq");
}

#[test]
fn control_characters() {
    assert!(sol::tokenize::is_control_character('('));
    assert!(!sol::tokenize::is_control_character('a'));
    assert_eq!(sol::tokenize::match_control_token('}'), Some(Token::SeqEnd));
    assert_eq!(sol::tokenize::match_control_token('x'), None);
}
