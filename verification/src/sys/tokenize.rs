//! A lexer with error recovery for the current language.
//!
//! Between tokens stand white space and `//` comments that run to the end of their line.
//! A token is a figure (`0`, or a run of digits that does not start with `0`), one of the
//! brackets `( ) { }`, or an ASCII identifier `[a-zA-Z_][a-zA-Z0-9_]*`, where `seq`,
//! `aks`, `mat` and `sol` are keywords. Where no token can be read, the lexer skips one
//! character at a time until one can; if none can be read before the end, lexing stops
//! there, and the text is rejected unless it was read to its end.
use vstd::prelude::*;
use crate::text::{byte_offset, char_text, chars_of, lemma_byte_offset_step, usize_text, utf8_width};
use crate::tokenize::{decimal_value, is_control, is_digit, lemma_decimal_prefix_bound};
use crate::text::is_white_space;
use crate::tokenize::{lemma_skip_spaces, skip_spaces};

verus! {

/// A byte range `(start, end)` of the source text.
pub type Span = (usize, usize);

/// A value with the byte range it was read from.
pub type Spanned<T> = (T, Span);

/// A token, borrowing identifiers from the source.
#[derive(Clone, Copy, Debug, PartialEq, Eq)]
pub enum Token<'src> {
    Sol,
    Figure(usize),
    Ctrl(char),
    Ident(&'src str),
    SeqKw,
    Tal,
    Nad,
    Mat,
    Aks,
}

/// What a token is; figures as natural numbers.
pub enum TokV {
    Sol,
    Figure(nat),
    Ctrl(char),
    Ident(Seq<char>),
    SeqKw,
    Tal,
    Nad,
    Mat,
    Aks,
}

impl<'src> View for Token<'src> {
    type V = TokV;

    open spec fn view(&self) -> TokV {
        match *self {
            Token::Sol => TokV::Sol,
            Token::Figure(u) => TokV::Figure(u as nat),
            Token::Ctrl(c) => TokV::Ctrl(c),
            Token::Ident(s) => TokV::Ident(s@),
            Token::SeqKw => TokV::SeqKw,
            Token::Tal => TokV::Tal,
            Token::Nad => TokV::Nad,
            Token::Mat => TokV::Mat,
            Token::Aks => TokV::Aks,
        }
    }
}

/// How a token is written (`Display`); the `aks` keyword is written `sol`.
pub open spec fn tok_text(t: TokV) -> Seq<char> {
    match t {
        TokV::Sol => "sol"@,
        TokV::SeqKw => "seq"@,
        TokV::Tal => "tal"@,
        TokV::Nad => "nad"@,
        TokV::Figure(u) => crate::text::decimal_text(u),
        TokV::Ctrl(c) => seq![c],
        TokV::Ident(s) => s,
        TokV::Mat => "mat"@,
        TokV::Aks => "sol"@,
    }
}

impl<'src> Token<'src> {
    /// How the token is written.
    pub fn to_text(&self) -> (r: String)
        ensures
            r@ == tok_text(self@),
    {
        match self {
            Token::Sol => String::from_str("sol"),
            Token::SeqKw => String::from_str("seq"),
            Token::Tal => String::from_str("tal"),
            Token::Nad => String::from_str("nad"),
            Token::Figure(u) => usize_text(*u),
            Token::Ctrl(c) => char_text(*c),
            Token::Ident(s) => String::from_str(s),
            Token::Mat => String::from_str("mat"),
            Token::Aks => String::from_str("sol"),
        }
    }
}

/// A character that may start an identifier.
pub open spec fn is_ident_start(c: char) -> bool {
    ('a' <= c && c <= 'z') || ('A' <= c && c <= 'Z') || c == '_'
}

/// A character that may continue an identifier.
pub open spec fn is_ident_continue(c: char) -> bool {
    is_ident_start(c) || is_digit(c)
}

/// The end of the run of digits from `i`.
pub open spec fn digits_end(s: Seq<char>, i: int) -> int
    decreases s.len() - i,
{
    if 0 <= i < s.len() && is_digit(s[i]) {
        digits_end(s, i + 1)
    } else {
        i
    }
}

/// The end of the run of identifier characters from `i`.
pub open spec fn ident_end(s: Seq<char>, i: int) -> int
    decreases s.len() - i,
{
    if 0 <= i < s.len() && is_ident_continue(s[i]) {
        ident_end(s, i + 1)
    } else {
        i
    }
}

/// The index of the first line break at or after `i`, or the end of the text.
pub open spec fn line_end(s: Seq<char>, i: int) -> int
    decreases s.len() - i,
{
    if 0 <= i < s.len() && s[i] != '\n' {
        line_end(s, i + 1)
    } else {
        i
    }
}

pub proof fn lemma_skip_spaces_ge(s: Seq<char>, i: int)
    ensures
        skip_spaces(s, i) >= i,
    decreases s.len() - i,
{
    if 0 <= i < s.len() && is_white_space(s[i]) {
        lemma_skip_spaces_ge(s, i + 1);
    }
}

pub proof fn lemma_line_end(s: Seq<char>, i: int)
    ensures
        line_end(s, i) >= i,
        0 <= i <= s.len() ==> line_end(s, i) <= s.len(),
    decreases s.len() - i,
{
    if 0 <= i < s.len() && s[i] != '\n' {
        lemma_line_end(s, i + 1);
    }
}

pub proof fn lemma_digits_end(s: Seq<char>, i: int)
    requires
        0 <= i <= s.len(),
    ensures
        i <= digits_end(s, i) <= s.len(),
        forall|k: int| i <= k < digits_end(s, i) ==> is_digit(#[trigger] s[k]),
    decreases s.len() - i,
{
    if i < s.len() && is_digit(s[i]) {
        lemma_digits_end(s, i + 1);
    }
}

pub proof fn lemma_ident_end(s: Seq<char>, i: int)
    requires
        0 <= i <= s.len(),
    ensures
        i <= ident_end(s, i) <= s.len(),
    decreases s.len() - i,
{
    if i < s.len() && is_ident_continue(s[i]) {
        lemma_ident_end(s, i + 1);
    }
}

/// The first index at or after `i` past white space and comments.
pub open spec fn skip_padding(s: Seq<char>, i: int) -> int
    decreases s.len() - i,
{
    let j = skip_spaces(s, i);
    if 0 <= j && j + 1 < s.len() && s[j] == '/' && s[j + 1] == '/' {
        proof {
            lemma_skip_spaces_ge(s, i);
            lemma_line_end(s, j + 2);
        }
        skip_padding(s, line_end(s, j + 2))
    } else {
        j
    }
}

pub proof fn lemma_skip_padding(s: Seq<char>, i: int)
    ensures
        skip_padding(s, i) >= i,
        0 <= i <= s.len() ==> skip_padding(s, i) <= s.len(),
    decreases s.len() - i,
{
    lemma_skip_spaces_ge(s, i);
    let j = skip_spaces(s, i);
    if 0 <= i <= s.len() {
        lemma_skip_spaces(s, i);
    }
    if 0 <= j && j + 1 < s.len() && s[j] == '/' && s[j + 1] == '/' {
        lemma_line_end(s, j + 2);
        lemma_skip_padding(s, line_end(s, j + 2));
    }
}

/// The token that the identifier `w` stands for.
pub open spec fn keyword(w: Seq<char>) -> TokV {
    if w == "seq"@ {
        TokV::SeqKw
    } else if w == "aks"@ {
        TokV::Aks
    } else if w == "mat"@ {
        TokV::Mat
    } else if w == "sol"@ {
        TokV::Sol
    } else {
        TokV::Ident(w)
    }
}

/// The token that starts at index `j`, and the index after it.
pub open spec fn token_at(s: Seq<char>, j: int) -> Option<(TokV, int)> {
    if j < 0 || j >= s.len() {
        None
    } else if s[j] == '0' {
        Some((TokV::Figure(0), j + 1))
    } else if is_digit(s[j]) {
        let e = digits_end(s, j);
        Some((TokV::Figure(decimal_value(s.subrange(j, e))), e))
    } else if is_control(s[j]) {
        Some((TokV::Ctrl(s[j]), j + 1))
    } else if is_ident_start(s[j]) {
        let e = ident_end(s, j);
        Some((keyword(s.subrange(j, e)), e))
    } else {
        None
    }
}

/// A token read from `p` on: the token with the byte range of its text, and the index
/// after the white space and comments that follow it.
pub open spec fn step_at(s: Seq<char>, p: int) -> Option<((TokV, int, int), int)> {
    let j = skip_padding(s, p);
    match token_at(s, j) {
        Some((t, e)) => Some(((t, byte_offset(s, j) as int, byte_offset(s, e) as int), skip_padding(s, e))),
        None => None,
    }
}

/// The first token that can be read from `p` on, trying `p` and then each later index
/// before the end of the text.
pub open spec fn next_step(s: Seq<char>, p: int) -> Option<((TokV, int, int), int)>
    decreases s.len() - p,
{
    if p < 0 || p >= s.len() {
        None
    } else {
        match step_at(s, p) {
            Some(x) => Some(x),
            None => next_step(s, p + 1),
        }
    }
}

pub proof fn lemma_token_at(s: Seq<char>, j: int)
    requires
        0 <= j,
    ensures
        token_at(s, j) matches Some((_, e)) ==> j < e <= s.len(),
{
    if 0 <= j < s.len() {
        if is_digit(s[j]) && s[j] != '0' {
            lemma_digits_end(s, j);
            lemma_digits_end(s, j + 1);
            assert(digits_end(s, j) == digits_end(s, j + 1));
        } else if !is_control(s[j]) && is_ident_start(s[j]) {
            lemma_ident_end(s, j);
            lemma_ident_end(s, j + 1);
            assert(ident_end(s, j) == ident_end(s, j + 1));
        }
    }
}

pub proof fn lemma_next_step(s: Seq<char>, p: int)
    requires
        0 <= p,
    ensures
        next_step(s, p) matches Some((_, q)) ==> p < q <= s.len(),
    decreases s.len() - p,
{
    if p < s.len() {
        lemma_skip_padding(s, p);
        let j = skip_padding(s, p);
        lemma_token_at(s, j);
        if let Some((t, e)) = token_at(s, j) {
            lemma_skip_padding(s, e);
        }
        lemma_next_step(s, p + 1);
    }
}

/// The tokens read from `p` on, with recovery, and the index at which reading stopped.
pub open spec fn lex_tokens(s: Seq<char>, p: int) -> (Seq<(TokV, int, int)>, int)
    decreases s.len() - p,
{
    if p < 0 {
        (Seq::empty(), p)
    } else {
        match next_step(s, p) {
            None => (Seq::empty(), p),
            Some((t, q)) => {
                proof {
                    lemma_next_step(s, p);
                }
                let rest = lex_tokens(s, q);
                (seq![t] + rest.0, rest.1)
            },
        }
    }
}

/// What lexing `s` gives: its tokens, where it was read to its end.
pub open spec fn lexed(s: Seq<char>) -> Option<Seq<(TokV, int, int)>> {
    let (ts, end) = lex_tokens(s, 0);
    if end == s.len() {
        Some(ts)
    } else {
        None
    }
}

/// Every figure that lexing `s` reads fits in a `usize`.
pub open spec fn figures_fit(s: Seq<char>) -> bool {
    forall|k: int|
        0 <= k < lex_tokens(s, 0).0.len() ==> ((#[trigger] lex_tokens(s, 0).0[k]).0 matches TokV::Figure(v)
            ==> v <= usize::MAX)
}

/// What a spanned token is.
pub open spec fn spanned_view<'src>(t: Spanned<Token<'src>>) -> (TokV, int, int) {
    (t.0@, t.1.0 as int, t.1.1 as int)
}

/// Where an ASCII letter (either case) or `_` stands, an identifier or keyword is read:
/// the longest run of ASCII letters, digits and `_` from there, one token for all of it.
pub proof fn law_identifier_at_letter(s: Seq<char>, j: int)
    requires
        0 <= j < s.len(),
        ('a' <= s[j] && s[j] <= 'z') || ('A' <= s[j] && s[j] <= 'Z') || s[j] == '_',
    ensures
        token_at(s, j) matches Some((t, e)) && j < e <= s.len() && t == keyword(s.subrange(j, e)) && (
        forall|k: int|
            j <= k < e ==> ('a' <= #[trigger] s[k] && s[k] <= 'z') || ('A' <= s[k] && s[k] <= 'Z') || (
            '0' <= s[k] && s[k] <= '9') || s[k] == '_') && (e == s.len() || !(('a' <= s[e] && s[e] <= 'z')
            || ('A' <= s[e] && s[e] <= 'Z') || ('0' <= s[e] && s[e] <= '9') || s[e] == '_')),
{
    lemma_ident_run(s, j);
    lemma_ident_end(s, j + 1);
    assert(ident_end(s, j) == ident_end(s, j + 1));
}

/// The run of identifier characters from `i`: all of them until its end, and none at it.
proof fn lemma_ident_run(s: Seq<char>, i: int)
    requires
        0 <= i <= s.len(),
    ensures
        forall|k: int| i <= k < ident_end(s, i) ==> is_ident_continue(#[trigger] s[k]),
        ident_end(s, i) < s.len() ==> !is_ident_continue(s[ident_end(s, i)]),
    decreases s.len() - i,
{
    if i < s.len() && is_ident_continue(s[i]) {
        lemma_ident_run(s, i + 1);
    }
}

/// The token found from `p` on covers characters `j..e` with `p <= j < e`, and reading
/// goes on at an index `q >= e` inside the text.
proof fn lemma_next_step_span(s: Seq<char>, p: int)
    requires
        0 <= p,
    ensures
        next_step(s, p) matches Some((t, q)) ==> exists|j: int, e: int|
            p <= j < e <= q <= s.len() && t.1 == byte_offset(s, j) && t.2 == byte_offset(s, e),
    decreases s.len() - p,
{
    if p < s.len() {
        lemma_skip_padding(s, p);
        let j = skip_padding(s, p);
        lemma_token_at(s, j);
        if let Some((t, e)) = token_at(s, j) {
            lemma_skip_padding(s, e);
            assert(p <= j < e <= skip_padding(s, e) <= s.len());
        } else {
            lemma_next_step_span(s, p + 1);
        }
    }
}

/// Byte offsets grow with the character index.
proof fn lemma_byte_offset_mono(s: Seq<char>, i: int, j: int)
    requires
        0 <= i <= j <= s.len(),
    ensures
        byte_offset(s, i) <= byte_offset(s, j),
{
    if i < j {
        crate::text::lemma_byte_offset_strict(s, i, j);
    }
}

/// The tokens that the lexer reads cover non-empty byte ranges, one after the other and
/// without overlap, inside the text and at or after the byte offset of character `p`.
pub proof fn law_lexed_spans_in_order(s: Seq<char>, p: int)
    requires
        0 <= p <= s.len(),
    ensures
        forall|a: int|
            0 <= a < lex_tokens(s, p).0.len() ==> byte_offset(s, p) <= (#[trigger] lex_tokens(s, p).0[a]).1
                < lex_tokens(s, p).0[a].2 <= byte_offset(s, s.len() as int),
        forall|a: int, b: int|
            0 <= a < b < lex_tokens(s, p).0.len() ==> (#[trigger] lex_tokens(s, p).0[a]).2 <= (
            #[trigger] lex_tokens(s, p).0[b]).1,
    decreases s.len() - p,
{
    lemma_next_step_span(s, p);
    if let Some((t, q)) = next_step(s, p) {
        let (j, e) = choose|j: int, e: int|
            p <= j < e <= q <= s.len() && t.1 == byte_offset(s, j) && t.2 == byte_offset(s, e);
        law_lexed_spans_in_order(s, q);
        crate::text::lemma_byte_offset_strict(s, j, e);
        lemma_byte_offset_mono(s, p, j);
        lemma_byte_offset_mono(s, e, q);
        let all = lex_tokens(s, p).0;
        let rest = lex_tokens(s, q).0;
        assert(all == seq![t] + rest);
        assert forall|a: int| 0 <= a < all.len() implies byte_offset(s, p) <= (#[trigger] all[a]).1
            < all[a].2 <= byte_offset(s, s.len() as int) by {
            if a > 0 {
                assert(all[a] == rest[a - 1]);
            }
        }
        assert forall|a: int, b: int| 0 <= a < b < all.len() implies (#[trigger] all[a]).2 <= (
        #[trigger] all[b]).1 by {
            assert(all[b] == rest[b - 1]);
            if a > 0 {
                assert(all[a] == rest[a - 1]);
            }
        }
    }
}

/// What a run of spanned tokens is.
pub open spec fn spanned_views<'src>(v: Seq<Spanned<Token<'src>>>) -> Seq<(TokV, int, int)> {
    v.map_values(|t: Spanned<Token<'src>>| spanned_view(t))
}

/// The byte offset of each character index of `src`, the end included.
fn byte_offsets(src: &str, chars: &Vec<char>) -> (r: Vec<usize>)
    requires
        chars@ == src@,
    ensures
        r.len() == chars.len() + 1,
        forall|i: int| 0 <= i <= chars.len() ==> r@[i] == byte_offset(src@, i),
{
    let _bytes = src.as_bytes().len();
    assert(src@.take(src@.len() as int) =~= src@);
    assert(src@.take(0) =~= Seq::<char>::empty());
    assert(vstd::utf8::encode_utf8(Seq::<char>::empty()) =~= Seq::<u8>::empty());
    let mut r: Vec<usize> = Vec::new();
    let mut off: usize = 0;
    r.push(off);
    let mut i: usize = 0;
    while i < chars.len()
        invariant
            chars@ == src@,
            i <= chars.len(),
            r.len() == i + 1,
            off == byte_offset(src@, i as int),
            byte_offset(src@, src@.len() as int) <= usize::MAX,
            forall|k: int| 0 <= k <= i ==> r@[k] == byte_offset(src@, k),
        decreases chars.len() - i,
    {
        proof {
            lemma_byte_offset_step(src@, i as int);
        }
        off = off + utf8_width(chars[i]);
        r.push(off);
        i = i + 1;
    }
    r
}

/// Skips white space from `i`.
fn skip_ws(chars: &Vec<char>, i: usize) -> (r: usize)
    requires
        i <= chars.len(),
    ensures
        r == skip_spaces(chars@, i as int),
        i <= r <= chars.len(),
{
    proof {
        lemma_skip_spaces(chars@, i as int);
    }
    let mut k = i;
    while k < chars.len() && crate::text::white_space(chars[k])
        invariant
            i <= k <= chars.len(),
            skip_spaces(chars@, k as int) == skip_spaces(chars@, i as int),
        decreases chars.len() - k,
    {
        k = k + 1;
    }
    k
}

/// The index of the first line break at or after `i`, or the end.
fn find_line_end(chars: &Vec<char>, i: usize) -> (r: usize)
    requires
        i <= chars.len(),
    ensures
        r == line_end(chars@, i as int),
        i <= r <= chars.len(),
{
    let mut k = i;
    while k < chars.len() && chars[k] != '\n'
        invariant
            i <= k <= chars.len(),
            line_end(chars@, k as int) == line_end(chars@, i as int),
        decreases chars.len() - k,
    {
        k = k + 1;
    }
    k
}

/// Skips white space and comments from `i`.
fn skip_pad(chars: &Vec<char>, i: usize) -> (r: usize)
    requires
        i <= chars.len(),
    ensures
        r == skip_padding(chars@, i as int),
        i <= r <= chars.len(),
{
    let mut k = i;
    loop
        invariant
            i <= k <= chars.len(),
            skip_padding(chars@, k as int) == skip_padding(chars@, i as int),
        decreases chars.len() - k,
    {
        let j = skip_ws(chars, k);
        if j < chars.len() && j + 1 < chars.len() && chars[j] == '/' && chars[j + 1] == '/' {
            k = find_line_end(chars, j + 2);
        } else {
            return j;
        }
    }
}

/// The token that the identifier `w` stands for.
fn keyword_of<'src>(w: &'src str) -> (r: Token<'src>)
    ensures
        r@ == keyword(w@),
{
    if crate::text::same_text(w, "seq") {
        Token::SeqKw
    } else if crate::text::same_text(w, "aks") {
        Token::Aks
    } else if crate::text::same_text(w, "mat") {
        Token::Mat
    } else if crate::text::same_text(w, "sol") {
        Token::Sol
    } else {
        Token::Ident(w)
    }
}

/// The token at index `j` and the index after it; `Err` where it is a figure too large
/// for a `usize`.
fn read_token<'src>(src: &'src str, chars: &Vec<char>, j: usize) -> (r: Option<Result<(Token<'src>, usize), ()>>)
    requires
        chars@ == src@,
        j <= chars.len(),
    ensures
        match token_at(src@, j as int) {
            None => r is None,
            Some((t, e)) => match r {
                Some(Ok((tok, e2))) => tok@ == t && e2 == e,
                Some(Err(())) => t matches TokV::Figure(v) && v > usize::MAX,
                None => false,
            },
        },
{
    let ghost s = src@;
    if j >= chars.len() {
        return None;
    }
    let c = chars[j];
    if c == '0' {
        return Some(Ok((Token::Figure(0), j + 1)));
    }
    if '0' <= c && c <= '9' {
        proof {
            lemma_digits_end(s, j as int);
            lemma_digits_end(s, j as int + 1);
            assert(digits_end(s, j as int) == digits_end(s, j as int + 1));
        }
        let ghost e = digits_end(s, j as int);
        let ghost d = s.subrange(j as int, e);
        let mut value: usize = 0;
        let mut k: usize = j;
        assert(s.subrange(j as int, j as int) =~= Seq::<char>::empty());
        while k < chars.len() && '0' <= chars[k] && chars[k] <= '9'
            invariant
                chars@ == s,
                s == src@,
                j < s.len(),
                s[j as int] != '0',
                is_digit(s[j as int]),
                j <= k <= e,
                e == digits_end(s, j as int),
                digits_end(s, k as int) == e,
                d == s.subrange(j as int, e),
                e <= s.len(),
                forall|m: int| j <= m < e ==> is_digit(#[trigger] s[m]),
                value as nat == decimal_value(s.subrange(j as int, k as int)),
            decreases chars.len() - k,
        {
            let ch = chars[k];
            assert(s.subrange(j as int, k + 1).drop_last() =~= s.subrange(j as int, k as int));
            let digit = (ch as u32 - '0' as u32) as usize;
            assert(digit == (ch as nat - '0' as nat) as nat);
            assert(decimal_value(s.subrange(j as int, k + 1)) == value * 10 + digit);
            assert(k + 1 <= e) by {
                assert(digits_end(s, k as int) == digits_end(s, k + 1));
                lemma_digits_end(s, k + 1);
            }
            let next = match value.checked_mul(10) {
                Some(v10) => v10.checked_add(digit),
                None => None,
            };
            match next {
                Some(v) => {
                    value = v;
                },
                None => {
                    proof {
                        assert(d.take(k + 1 - j) =~= s.subrange(j as int, k + 1));
                        assert forall|m: int| 0 <= m < d.len() implies is_digit(#[trigger] d[m]) by {
                            assert(d[m] == s[j + m]);
                        }
                        lemma_decimal_prefix_bound(d, (k + 1 - j) as int);
                        assert(token_at(s, j as int) == Some((TokV::Figure(decimal_value(d)), e)));
                    }
                    return Some(Err(()));
                },
            }
            k = k + 1;
        }
        assert(k == e);
        return Some(Ok((Token::Figure(value), k)));
    }
    if c == '(' || c == ')' || c == '{' || c == '}' {
        return Some(Ok((Token::Ctrl(c), j + 1)));
    }
    if ('a' <= c && c <= 'z') || ('A' <= c && c <= 'Z') || c == '_' {
        proof {
            lemma_ident_end(s, j as int);
        }
        let mut k: usize = j;
        while k < chars.len() && (('a' <= chars[k] && chars[k] <= 'z') || ('A' <= chars[k] && chars[k]
            <= 'Z') || chars[k] == '_' || ('0' <= chars[k] && chars[k] <= '9'))
            invariant
                chars@ == s,
                j <= k <= s.len(),
                ident_end(s, k as int) == ident_end(s, j as int),
            decreases chars.len() - k,
        {
            k = k + 1;
        }
        let w = src.substring_char(j, k);
        return Some(Ok((keyword_of(w), k)));
    }
    None
}

/// The first token that can be read from `p` on, with its byte range and the index after
/// the padding that follows it; `Err` where that token is a figure too large for a `usize`.
fn read_next<'src>(src: &'src str, chars: &Vec<char>, offsets: &Vec<usize>, p: usize) -> (r: Option<
    Result<(Spanned<Token<'src>>, usize), ()>,
>)
    requires
        chars@ == src@,
        p <= chars.len(),
        offsets.len() == chars.len() + 1,
        forall|i: int| 0 <= i <= chars.len() ==> offsets@[i] == byte_offset(src@, i),
    ensures
        match next_step(src@, p as int) {
            None => r is None,
            Some((t, q)) => match r {
                Some(Ok((x, q2))) => spanned_view(x) == t && q2 == q,
                Some(Err(())) => t.0 matches TokV::Figure(v) && v > usize::MAX,
                None => false,
            },
        },
{
    let mut k = p;
    while k < chars.len()
        invariant
            chars@ == src@,
            p <= k <= chars.len(),
            offsets.len() == chars.len() + 1,
            forall|i: int| 0 <= i <= chars.len() ==> offsets@[i] == byte_offset(src@, i),
            next_step(src@, k as int) == next_step(src@, p as int),
        decreases chars.len() - k,
    {
        let j = skip_pad(chars, k);
        match read_token(src, chars, j) {
            Some(Ok((tok, e))) => {
                proof {
                    lemma_token_at(src@, j as int);
                }
                let q = skip_pad(chars, e);
                return Some(Ok(((tok, (offsets[j], offsets[e])), q)));
            },
            Some(Err(())) => {
                return Some(Err(()));
            },
            None => {
                k = k + 1;
            },
        }
    }
    None
}

/// Lexes `src`: its tokens with their byte ranges, or `None` where it cannot be read to
/// its end.
pub fn lexer<'src>(src: &'src str) -> (r: Option<Vec<Spanned<Token<'src>>>>)
    requires
        figures_fit(src@),
    ensures
        match lexed(src@) {
            Some(ts) => r matches Some(v) && spanned_views(v@) == ts,
            None => r is None,
        },
{
    let ghost s = src@;
    let chars = chars_of(src);
    let offsets = byte_offsets(src, &chars);
    let mut out: Vec<Spanned<Token<'src>>> = Vec::new();
    let mut p: usize = 0;
    assert(spanned_views(out@) =~= Seq::<(TokV, int, int)>::empty());
    assert(lex_tokens(s, 0).0 =~= spanned_views(out@) + lex_tokens(s, 0).0);
    loop
        invariant
            chars@ == s,
            s == src@,
            p <= chars.len(),
            offsets.len() == chars.len() + 1,
            forall|i: int| 0 <= i <= chars.len() ==> offsets@[i] == byte_offset(s, i),
            figures_fit(s),
            lex_tokens(s, 0).0 == spanned_views(out@) + lex_tokens(s, p as int).0,
            lex_tokens(s, 0).1 == lex_tokens(s, p as int).1,
        decreases chars.len() - p,
    {
        proof {
            lemma_next_step(s, p as int);
        }
        match read_next(src, &chars, &offsets, p) {
            None => {
                assert(lex_tokens(s, p as int).0 =~= Seq::<(TokV, int, int)>::empty());
                assert(lex_tokens(s, 0).0 =~= spanned_views(out@));
                if p == chars.len() {
                    return Some(out);
                } else {
                    return None;
                }
            },
            Some(Ok((t, q))) => {
                let ghost before = out@;
                out.push(t);
                assert(spanned_views(out@) =~= spanned_views(before).push(spanned_view(t)));
                assert(lex_tokens(s, p as int).0 =~= seq![spanned_view(t)] + lex_tokens(s, q as int).0);
                assert(lex_tokens(s, 0).0 =~= spanned_views(out@) + lex_tokens(s, q as int).0);
                p = q;
            },
            Some(Err(())) => {
                proof {
                    let k = spanned_views(out@).len() as int;
                    assert(lex_tokens(s, 0).0[k] == lex_tokens(s, p as int).0[0]);
                }
                return None;
            },
        }
    }
}

} // verus!
