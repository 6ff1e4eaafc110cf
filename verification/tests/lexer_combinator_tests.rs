use chumsky::error::Rich;
use chumsky::extra;
use chumsky::primitive::{any, end, just, one_of};
use chumsky::recovery::skip_then_retry_until;
use chumsky::span::SimpleSpan;
use chumsky::text;
use chumsky::{IterParser, Parser};
use sol::sys::tokenize::{lexer, Token};

type Spanned<'src> = (Token<'src>, SimpleSpan);

fn combinator_lexer<'src>(
) -> impl Parser<'src, &'src str, Vec<Spanned<'src>>, extra::Err<Rich<'src, char, SimpleSpan>>> {
    let fig = text::int(10).to_slice().from_str().unwrapped().map(Token::Figure);
    let ctrl = one_of("(){}").map(Token::Ctrl);
    let ident = text::ascii::ident().map(|ident: &str| match ident {
        "seq" => Token::SeqKw,
        "aks" => Token::Aks,
        "mat" => Token::Mat,
        "sol" => Token::Sol,
        _ => Token::Ident(ident),
    });
    let token = fig.or(ctrl).or(ident);
    let comment = just("//").then(any().and_is(just('\n').not()).repeated()).padded();
    token
        .map_with(|tok, e| (tok, e.span()))
        .padded_by(comment.repeated())
        .padded()
        .recover_with(skip_then_retry_until(any().ignored(), end()))
        .repeated()
        .collect()
}

fn combinator_tokens(src: &str) -> Option<Vec<(Token<'_>, (usize, usize))>> {
    combinator_lexer()
        .parse(src)
        .into_output()
        .map(|v| v.into_iter().map(|(t, s)| (t, (s.start, s.end))).collect())
}

#[test]
fn lexer_agrees_with_the_combinator_lexer() {
    let inputs = [
        "",
        "seq a { 12 (0) }",
        "aks mat sol tal nad _x9",
        "0123 12ab",
        "  // note\n x // end",
        "a @# b",
        "é x",
        "a @",
        "   ",
        "/",
        "x/",
        "x //",
        "x // y\n// z\n  w",
        "seq x{ (1 2)}// c\n 3 y",
        "@@a",
        "a\u{3000}b",
        "tal 4\nseq a { 1 2 }\na a",
        "00",
        "9a9",
    ];
    for src in inputs {
        assert_eq!(lexer(src), combinator_tokens(src), "input {:?}", src);
    }
}
