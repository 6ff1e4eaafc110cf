//! The tokenizer: source text to a stream of positioned tokens.
//!
//! Tokens are separated by white space; the four brackets `{ } ( )` are tokens of
//! their own wherever they stand. Every other run of characters is a word: a decimal
//! figure (what `usize::from_str` accepts), one of the keywords `seq`, `sol`, `tal`,
//! `nad`, or else a literal name.
use vstd::prelude::*;
use crate::text::{
    byte_offset, chars_of, decimal_text, is_white_space, lemma_byte_offset_step, lemma_byte_offset_strict, same_text, usize_text,
    utf8_width, white_space,
};

verus! {

/// A token, borrowing its text from the source.
#[derive(Clone, Copy, Debug, PartialEq, Eq)]
pub enum Token<'t> {
    /// keyword `seq`
    SeqKw,
    /// keyword `sol` (holds the root program)
    SolKw,
    /// keyword `tal`
    TalKw,
    /// keyword `nad`
    NadKw,
    /// a name
    Literal(&'t str),
    /// a decimal figure
    Figure(usize),
    /// `{`
    SeqStart,
    /// `}`
    SeqEnd,
    /// `(`
    GapStart,
    /// `)`
    GapEnd,
}

/// What a token is, with its text as characters.
pub enum TokenV {
    SeqKw,
    SolKw,
    TalKw,
    NadKw,
    Literal(Seq<char>),
    Figure(usize),
    SeqStart,
    SeqEnd,
    GapStart,
    GapEnd,
}

impl<'t> View for Token<'t> {
    type V = TokenV;

    open spec fn view(&self) -> TokenV {
        match *self {
            Token::SeqKw => TokenV::SeqKw,
            Token::SolKw => TokenV::SolKw,
            Token::TalKw => TokenV::TalKw,
            Token::NadKw => TokenV::NadKw,
            Token::Literal(s) => TokenV::Literal(s@),
            Token::Figure(u) => TokenV::Figure(u),
            Token::SeqStart => TokenV::SeqStart,
            Token::SeqEnd => TokenV::SeqEnd,
            Token::GapStart => TokenV::GapStart,
            Token::GapEnd => TokenV::GapEnd,
        }
    }
}

/// How a token is written in messages (`Display`).
pub open spec fn token_text(t: TokenV) -> Seq<char> {
    "token "@ + match t {
        TokenV::SeqKw => "seq"@,
        TokenV::SolKw => "sol"@,
        TokenV::TalKw => "tal"@,
        TokenV::NadKw => "nad"@,
        TokenV::SeqStart => "seq start"@,
        TokenV::SeqEnd => "seq end"@,
        TokenV::Literal(s) => "ident("@ + s + ")"@,
        TokenV::Figure(u) => "figure("@ + decimal_text(u as nat) + ")"@,
        TokenV::GapStart => "gap start"@,
        TokenV::GapEnd => "gap end"@,
    }
}

impl<'t> Token<'t> {
    /// How the token is written in messages.
    pub fn to_text(&self) -> (r: String)
        ensures
            r@ == token_text(self@),
    {
        let mut out = String::from_str("token ");
        match self {
            Token::SeqKw => out.append("seq"),
            Token::SolKw => out.append("sol"),
            Token::TalKw => out.append("tal"),
            Token::NadKw => out.append("nad"),
            Token::SeqStart => out.append("seq start"),
            Token::SeqEnd => out.append("seq end"),
            Token::Literal(s) => {
                out.append("ident(");
                out.append(s);
                out.append(")");
            },
            Token::Figure(u) => {
                out.append("figure(");
                out.append(usize_text(*u).as_str());
                out.append(")");
            },
            Token::GapStart => out.append("gap start"),
            Token::GapEnd => out.append("gap end"),
        }
        out
    }
}

/// A token and the byte offset in the source at which it starts.
#[derive(Clone, Copy, Debug, PartialEq, Eq)]
pub struct Span<'t> {
    pub start: usize,
    pub token: Token<'t>,
}

/// What a span is.
pub struct SpanV {
    pub start: int,
    pub token: TokenV,
}

impl<'t> View for Span<'t> {
    type V = SpanV;

    open spec fn view(&self) -> SpanV {
        SpanV { start: self.start as int, token: self.token@ }
    }
}

impl<'t> Span<'t> {
    /// The byte offset at which the token starts.
    pub fn start(&self) -> (r: usize)
        ensures
            r == self.start,
    {
        self.start
    }

    /// The token.
    pub fn token(&self) -> (r: &Token<'t>)
        ensures
            *r == self.token,
    {
        &self.token
    }
}

/// One of the four bracket characters.
pub open spec fn is_control(c: char) -> bool {
    c == '{' || c == '}' || c == '(' || c == ')'
}

/// The token that a bracket character stands for.
pub open spec fn control_token(c: char) -> Option<TokenV> {
    if c == '{' {
        Some(TokenV::SeqStart)
    } else if c == '}' {
        Some(TokenV::SeqEnd)
    } else if c == '(' {
        Some(TokenV::GapStart)
    } else if c == ')' {
        Some(TokenV::GapEnd)
    } else {
        None
    }
}

pub open spec fn is_digit(c: char) -> bool {
    '0' <= c && c <= '9'
}

/// The value of a run of decimal digits.
pub open spec fn decimal_value(d: Seq<char>) -> nat
    decreases d.len(),
{
    if d.len() == 0 {
        0
    } else {
        decimal_value(d.drop_last()) * 10 + (d.last() as nat - '0' as nat) as nat
    }
}

/// The digits of a figure, after an optional leading `+`.
pub open spec fn unsigned_part(w: Seq<char>) -> Seq<char> {
    if w.len() > 0 && w[0] == '+' {
        w.drop_first()
    } else {
        w
    }
}

/// What `usize::from_str` gives for `w`: an optional `+`, then at least one
/// decimal digit and nothing else, whose value fits in a `usize`.
pub open spec fn figure_value(w: Seq<char>) -> Option<usize> {
    let d = unsigned_part(w);
    if d.len() > 0 && (forall|i: int| 0 <= i < d.len() ==> is_digit(#[trigger] d[i]))
        && decimal_value(d) <= usize::MAX {
        Some(decimal_value(d) as usize)
    } else {
        None
    }
}

/// The token that a word stands for.
pub open spec fn classify(w: Seq<char>) -> TokenV {
    match figure_value(w) {
        Some(n) => TokenV::Figure(n),
        None => {
            if w == "{"@ {
                TokenV::SeqStart
            } else if w == "}"@ {
                TokenV::SeqEnd
            } else if w == "("@ {
                TokenV::GapStart
            } else if w == ")"@ {
                TokenV::GapEnd
            } else if w == "seq"@ {
                TokenV::SeqKw
            } else if w == "sol"@ {
                TokenV::SolKw
            } else if w == "tal"@ {
                TokenV::TalKw
            } else if w == "nad"@ {
                TokenV::NadKw
            } else {
                TokenV::Literal(w)
            }
        },
    }
}

/// The first index at or after `i` that holds no white space.
pub open spec fn skip_spaces(s: Seq<char>, i: int) -> int
    decreases s.len() - i,
{
    if 0 <= i < s.len() && is_white_space(s[i]) {
        skip_spaces(s, i + 1)
    } else {
        i
    }
}

/// The end of the word that starts at `i`.
pub open spec fn word_end(s: Seq<char>, i: int) -> int
    decreases s.len() - i,
{
    if 0 <= i < s.len() && !is_white_space(s[i]) && !is_control(s[i]) {
        word_end(s, i + 1)
    } else {
        i
    }
}

/// The next token of `s` at or after character index `i`, and the index after it.
pub open spec fn lex_step(s: Seq<char>, i: int) -> Option<(SpanV, int)> {
    let j = skip_spaces(s, i);
    if j >= s.len() {
        None
    } else if is_control(s[j]) {
        Some((SpanV { start: byte_offset(s, j) as int, token: control_token(s[j])->0 }, j + 1))
    } else {
        let e = word_end(s, j);
        Some((SpanV { start: byte_offset(s, j) as int, token: classify(s.subrange(j, e)) }, e))
    }
}

/// All the tokens of `s` from character index `i` on.
pub open spec fn lex_from(s: Seq<char>, i: int) -> Seq<SpanV>
    decreases s.len() - i,
{
    match lex_step(s, i) {
        None => Seq::empty(),
        Some((t, k)) => if i < k <= s.len() {
            seq![t] + lex_from(s, k)
        } else {
            Seq::empty()
        },
    }
}

/// All the tokens of `s`.
pub open spec fn lex(s: Seq<char>) -> Seq<SpanV> {
    lex_from(s, 0)
}

pub proof fn lemma_skip_spaces(s: Seq<char>, i: int)
    requires
        0 <= i <= s.len(),
    ensures
        i <= skip_spaces(s, i) <= s.len(),
        forall|k: int| i <= k < skip_spaces(s, i) ==> is_white_space(#[trigger] s[k]),
        skip_spaces(s, i) < s.len() ==> !is_white_space(s[skip_spaces(s, i)]),
    decreases s.len() - i,
{
    if i < s.len() && is_white_space(s[i]) {
        lemma_skip_spaces(s, i + 1);
    }
}

pub proof fn lemma_word_end(s: Seq<char>, i: int)
    requires
        0 <= i <= s.len(),
    ensures
        i <= word_end(s, i) <= s.len(),
        forall|k: int| i <= k < word_end(s, i) ==> !is_white_space(#[trigger] s[k]) && !is_control(s[k]),
        word_end(s, i) < s.len() ==> is_white_space(s[word_end(s, i)]) || is_control(s[word_end(s, i)]),
    decreases s.len() - i,
{
    if i < s.len() && !is_white_space(s[i]) && !is_control(s[i]) {
        lemma_word_end(s, i + 1);
    }
}

/// Each step of the tokenizer moves forward and stays inside the text; the token it
/// finds starts at a character at or after `i` and before the index it moves on to.
pub proof fn lemma_lex_step_advances(s: Seq<char>, i: int)
    requires
        0 <= i <= s.len(),
    ensures
        lex_step(s, i) matches Some((t, k)) ==> i < k <= s.len() && exists|j: int|
            i <= j < k && t.start == byte_offset(s, j),
{
    lemma_skip_spaces(s, i);
    let j = skip_spaces(s, i);
    if j < s.len() && !is_control(s[j]) {
        lemma_word_end(s, j);
        assert(word_end(s, j) == word_end(s, j + 1));
        lemma_word_end(s, j + 1);
    }
}

/// The tokens come in the order of the text: each starts at a larger byte offset than
/// the one before, all at or after the byte offset of character `i`, and all before the
/// end of the text.
pub proof fn law_spans_in_order(s: Seq<char>, i: int)
    requires
        0 <= i <= s.len(),
    ensures
        forall|a: int, b: int|
            0 <= a < b < lex_from(s, i).len() ==> #[trigger] lex_from(s, i)[a].start
                < #[trigger] lex_from(s, i)[b].start,
        forall|a: int|
            0 <= a < lex_from(s, i).len() ==> byte_offset(s, i) <= #[trigger] lex_from(s, i)[a].start
                < byte_offset(s, s.len() as int),
    decreases s.len() - i,
{
    lemma_lex_step_advances(s, i);
    if let Some((t, k)) = lex_step(s, i) {
        if i < k <= s.len() {
            law_spans_in_order(s, k);
            let j = choose|j: int| i <= j < k && t.start == byte_offset(s, j);
            lemma_byte_offset_strict(s, j, k);
            if i < j {
                lemma_byte_offset_strict(s, i, j);
            }
            let rest = lex_from(s, k);
            let all = lex_from(s, i);
            assert(all == seq![t] + rest);
            assert forall|a: int| 0 <= a < all.len() implies byte_offset(s, i) <= #[trigger] all[a].start
                < byte_offset(s, s.len() as int) by {
                if a > 0 {
                    assert(all[a] == rest[a - 1]);
                }
            }
            assert forall|a: int, b: int| 0 <= a < b < all.len() implies #[trigger] all[a].start
                < #[trigger] all[b].start by {
                assert(all[b] == rest[b - 1]);
                if a > 0 {
                    assert(all[a] == rest[a - 1]);
                }
            }
        }
    }
}

/// Bracket characters.
pub fn is_control_character(c: char) -> (r: bool)
    ensures
        r == is_control(c),
{
    c == '{' || c == '}' || c == '(' || c == ')'
}

/// The token of a bracket character; `None` for any other character.
pub fn match_control_token<'a>(c: char) -> (r: Option<Token<'a>>)
    ensures
        r matches Some(t) ==> control_token(c) == Some(t@),
        r is None ==> control_token(c) is None,
{
    match c {
        '{' => Some(Token::SeqStart),
        '}' => Some(Token::SeqEnd),
        '(' => Some(Token::GapStart),
        ')' => Some(Token::GapEnd),
        _ => None,
    }
}

/// What `usize::from_str` gives for the characters `w`.
pub fn parse_figure_text(w: &Vec<char>) -> (r: Option<usize>)
    ensures
        r == figure_value(w@),
{
    let mut i: usize = 0;
    if w.len() > 0 && w[0] == '+' {
        i = 1;
    }
    let ghost d = unsigned_part(w@);
    assert(d =~= w@.skip(i as int));
    if i >= w.len() {
        return None;
    }
    let mut value: usize = 0;
    let mut k: usize = i;
    while k < w.len()
        invariant
            i <= k <= w.len(),
            i < w.len(),
            d =~= w@.skip(i as int),
            d == unsigned_part(w@),
            forall|j: int| i <= j < k ==> is_digit(#[trigger] w@[j]),
            value as nat == decimal_value(w@.subrange(i as int, k as int)),
        decreases w.len() - k,
    {
        let c = w[k];
        assert(w@.subrange(i as int, k + 1).drop_last() =~= w@.subrange(i as int, k as int));
        if !('0' <= c && c <= '9') {
            assert(d[k - i] == c);
            assert(!is_digit(d[k - i]));
            assert(unsigned_part(w@) == d);
            return None;
        }
        let digit = (c as u32 - '0' as u32) as usize;
        assert(digit == (c as nat - '0' as nat) as nat);
        assert(d.take(k + 1 - i) =~= w@.subrange(i as int, k + 1));
        assert(decimal_value(w@.subrange(i as int, k + 1)) == value * 10 + digit);
        match value.checked_mul(10) {
            Some(v10) => match v10.checked_add(digit) {
                Some(v) => {
                    value = v;
                },
                None => {
                    proof {
                        lemma_overflow_rejected(d, (k + 1 - i) as int);
                    }
                    return None;
                },
            },
            None => {
                proof {
                    lemma_overflow_rejected(d, (k + 1 - i) as int);
                }
                return None;
            },
        }
        k = k + 1;
    }
    assert(w@.subrange(i as int, w.len() as int) =~= d);
    Some(value)
}

/// A run whose prefix is already too large for a `usize` is no figure.
proof fn lemma_overflow_rejected(d: Seq<char>, n: int)
    requires
        0 < n <= d.len(),
        decimal_value(d.take(n)) > usize::MAX,
    ensures
        !(d.len() > 0 && (forall|i: int| 0 <= i < d.len() ==> is_digit(#[trigger] d[i]))
            && decimal_value(d) <= usize::MAX),
{
    if forall|i: int| 0 <= i < d.len() ==> is_digit(#[trigger] d[i]) {
        lemma_decimal_prefix_bound(d, n);
    }
}

/// The value of a run of digits is at least that of any prefix of it.
pub proof fn lemma_decimal_prefix_bound(d: Seq<char>, n: int)
    requires
        0 <= n <= d.len(),
        forall|i: int| 0 <= i < d.len() ==> is_digit(#[trigger] d[i]),
    ensures
        decimal_value(d.take(n)) <= decimal_value(d),
    decreases d.len() - n,
{
    if n < d.len() {
        lemma_decimal_prefix_bound(d, n + 1);
        assert(d.take(n + 1).drop_last() =~= d.take(n));
    } else {
        assert(d.take(n) =~= d);
    }
}


/// The views of a sequence of spans.
pub open spec fn spans_view<'t>(v: Seq<Span<'t>>) -> Seq<SpanV> {
    v.map_values(|sp: Span<'t>| sp@)
}

/// Walks a source text and hands out its tokens one at a time.
pub struct Tokenizer<'a> {
    chars: Vec<char>,
    source: &'a str,
    /// The character index of the cursor and its byte offset.
    at: (usize, usize),
}

impl<'a> Tokenizer<'a> {
    #[verifier::type_invariant]
    closed spec fn well_formed(&self) -> bool {
        &&& self.chars@ == self.source@
        &&& self.at.0 <= self.chars@.len()
        &&& self.at.1 == byte_offset(self.source@, self.at.0 as int)
        &&& byte_offset(self.source@, self.source@.len() as int) <= usize::MAX
    }

    /// The whole source text.
    pub closed spec fn text(&self) -> Seq<char> {
        self.source@
    }

    /// The character index from which the next token is sought.
    pub closed spec fn position(&self) -> int {
        self.at.0 as int
    }

    /// A tokenizer at the start of `value`.
    pub fn from(value: &'a str) -> (r: Tokenizer<'a>)
        ensures
            r.text() == value@,
            r.position() == 0,
    {
        let chars = chars_of(value);
        let _bytes = value.as_bytes().len();
        assert(value@.take(value@.len() as int) =~= value@);
        assert(value@.take(0) =~= Seq::<char>::empty());
        assert(vstd::utf8::encode_utf8(Seq::<char>::empty()) =~= Seq::<u8>::empty());
        Tokenizer { chars, source: value, at: (0, 0) }
    }

    /// Moves one character on.
    fn advance(&mut self)
        requires
            old(self).position() < old(self).text().len(),
        ensures
            final(self).text() == old(self).text(),
            final(self).position() == old(self).position() + 1,
    {
        proof {
            use_type_invariant(&*self);
            lemma_byte_offset_step(self.source@, self.at.0 as int);
        }
        let w = utf8_width(self.chars[self.at.0]);
        assert(self.at.1 + w == byte_offset(self.source@, self.at.0 + 1));
        assert(self.at.1 + w <= usize::MAX);
        let _n = self.chars.len();
        self.at = (self.at.0 + 1, self.at.1 + w);
    }

    /// Skips the white space before the next token.
    pub fn skip_whitespace(&mut self)
        ensures
            final(self).text() == old(self).text(),
            final(self).position() == skip_spaces(old(self).text(), old(self).position()),
    {
        proof {
            use_type_invariant(&*self);
        }
        while self.at.0 < self.chars.len() && white_space(self.chars[self.at.0])
            invariant
                self.text() == old(self).text(),
                skip_spaces(self.text(), self.position()) == skip_spaces(
                    old(self).text(),
                    old(self).position(),
                ),
            decreases self.text().len() - self.position(),
        {
            proof {
                use_type_invariant(&*self);
            }
            self.advance();
            proof {
                use_type_invariant(&*self);
            }
        }
        proof {
            use_type_invariant(&*self);
        }
    }

    /// The token that the word `val` stands for.
    pub fn match_syntax_token(&self, val: &'a str) -> (r: Option<Token<'a>>)
        ensures
            r matches Some(t) && t@ == classify(val@),
    {
        let cs = chars_of(val);
        if let Some(num_form) = parse_figure_text(&cs) {
            return Some(Token::Figure(num_form));
        }
        if same_text(val, "{") {
            Some(Token::SeqStart)
        } else if same_text(val, "}") {
            Some(Token::SeqEnd)
        } else if same_text(val, "(") {
            Some(Token::GapStart)
        } else if same_text(val, ")") {
            Some(Token::GapEnd)
        } else if same_text(val, "seq") {
            Some(Token::SeqKw)
        } else if same_text(val, "sol") {
            Some(Token::SolKw)
        } else if same_text(val, "tal") {
            Some(Token::TalKw)
        } else if same_text(val, "nad") {
            Some(Token::NadKw)
        } else {
            Some(Token::Literal(val))
        }
    }

    /// The next token and where it starts; `None` at the end of the text.
    pub fn next(&mut self) -> (r: Option<Span<'a>>)
        ensures
            final(self).text() == old(self).text(),
            match lex_step(old(self).text(), old(self).position()) {
                None => r is None,
                Some((t, k)) => r matches Some(sp) && sp@ == t && final(self).position() == k,
            },
    {
        proof {
            use_type_invariant(&*self);
        }
        self.skip_whitespace();
        proof {
            use_type_invariant(&*self);
            lemma_skip_spaces(self.text(), old(self).position());
        }
        if self.at.0 >= self.chars.len() {
            return None;
        }
        let start = self.at.1;
        let first_char = self.chars[self.at.0];
        if is_control_character(first_char) {
            self.advance();
            let t = match_control_token(first_char);
            return match t {
                Some(tok) => Some(Span { start, token: tok }),
                None => None,
            };
        }
        let first = self.at.0;
        proof {
            lemma_word_end(self.text(), first as int);
        }
        while self.at.0 < self.chars.len() && !white_space(self.chars[self.at.0])
            && !is_control_character(self.chars[self.at.0])
            invariant
                self.text() == old(self).text(),
                first <= self.position() <= self.text().len(),
                word_end(self.text(), self.position()) == word_end(self.text(), first as int),
            decreases self.text().len() - self.position(),
        {
            proof {
                use_type_invariant(&*self);
            }
            self.advance();
            proof {
                use_type_invariant(&*self);
            }
        }
        proof {
            use_type_invariant(&*self);
        }
        let slice = self.source.substring_char(first, self.at.0);
        match self.match_syntax_token(slice) {
            Some(tok) => Some(Span { start, token: tok }),
            None => None,
        }
    }

    /// All the tokens from the current position to the end of the text.
    pub fn spans(self) -> (r: Vec<Span<'a>>)
        ensures
            spans_view(r@) == lex_from(self.text(), self.position()),
    {
        let ghost text = self.text();
        let ghost first = self.position();
        let mut this = self;
        let mut out: Vec<Span<'a>> = Vec::new();
        proof {
            use_type_invariant(&this);
        }
        loop
            invariant_except_break
                this.text() == text,
                0 <= this.position() <= text.len(),
                spans_view(out@) + lex_from(text, this.position()) == lex_from(text, first),
            ensures
                spans_view(out@) == lex_from(text, first),
            decreases text.len() - this.position(),
        {
            let ghost here = this.position();
            proof {
                lemma_lex_step_advances(text, here);
            }
            match this.next() {
                None => {
                    assert(spans_view(out@) + Seq::<SpanV>::empty() =~= spans_view(out@));
                    break;
                },
                Some(sp) => {
                    let ghost before = out@;
                    out.push(sp);
                    proof {
                        assert(spans_view(out@) =~= spans_view(before) + seq![sp@]);
                        assert(spans_view(out@) + lex_from(text, this.position()) =~= spans_view(
                            before,
                        ) + lex_from(text, here));
                        use_type_invariant(&this);
                    }
                },
            }
        }
        out
    }
}

/// The tokens of a whole source text.
pub fn tokenize<'a>(source: &'a str) -> (r: Vec<Span<'a>>)
    ensures
        spans_view(r@) == lex(source@),
{
    Tokenizer::from(source).spans()
}

} // verus!
