//! The parser of the first language: sequences, gaps, figures and calls, no `tal`/`nad`.
//!
//! In this language `tal` and `nad` are plain names.
use vstd::prelude::*;
use crate::ast::{kids, lemma_node_views_push, Node, NodeType, NodeTypeV, NodeV};
use crate::sys::warnings::ErrorV;
use crate::text::{decimal_text, joined, line_col, same_text, spec_line_col, usize_text};
use crate::tokenize::{lex_from, spans_view, token_text, Span, SpanV, Token, TokenV, Tokenizer};

verus! {

/// The kind of an open block.
#[derive(Debug, Clone, Copy, PartialEq, Eq, Structural)]
pub enum Frame {
    Sequence,
    Gap,
}

/// A parse error: a message and, where known, the byte offset it refers to.
#[derive(Debug)]
pub struct ParseError {
    pos: Option<usize>,
    msg: String,
}

impl View for ParseError {
    type V = ErrorV;

    closed spec fn view(&self) -> ErrorV {
        ErrorV { pos: self.pos, msg: self.msg@ }
    }
}

/// The text of a report of `e` for the file `filename` whose source is `src`.
pub open spec fn parse_report_text(e: ErrorV, filename: Seq<char>, src: Seq<char>) -> Seq<char> {
    match e.pos {
        Some(pos) => {
            let (line, col) = spec_line_col(src, pos as int);
            filename + ":"@ + decimal_text(line) + ":"@ + decimal_text(col) + ": error: "@ + e.msg
        },
        None => filename + ": error: "@ + e.msg + " (at end of input)"@,
    }
}

impl ParseError {
    /// An error at byte offset `pos`.
    pub(crate) fn at(pos: usize, msg: &str) -> (r: Self)
        ensures
            r@ == (ErrorV { pos: Some(pos), msg: msg@ }),
    {
        Self { pos: Some(pos), msg: String::from_str(msg) }
    }

    /// An error at the end of the input.
    pub(crate) fn eof(msg: &str) -> (r: Self)
        ensures
            r@ == (ErrorV { pos: None, msg: msg@ }),
    {
        Self { pos: None, msg: String::from_str(msg) }
    }

    /// The report of the error for the file `filename` whose text is `src`.
    pub fn report(&self, filename: &str, src: &str) -> (r: String)
        ensures
            r@ == parse_report_text(self@, filename@, src@),
    {
        match self.pos {
            Some(pos) => {
                let (line, col) = Self::line_col(src, pos);
                let mut out = String::from_str(filename);
                out.append(":");
                out.append(usize_text(line).as_str());
                out.append(":");
                out.append(usize_text(col).as_str());
                out.append(": error: ");
                out.append(self.msg.as_str());
                out
            },
            None => {
                let mut out = String::from_str(filename);
                out.append(": error: ");
                out.append(self.msg.as_str());
                out.append(" (at end of input)");
                out
            },
        }
    }

    fn line_col(src: &str, pos: usize) -> (r: (usize, usize))
        ensures
            (r.0 as nat, r.1 as nat) == spec_line_col(src@, pos as int),
    {
        line_col(src, pos)
    }
}

/// The stack of open blocks.
#[derive(Debug)]
pub struct FrameStack {
    stack: Vec<Frame>,
}

impl View for FrameStack {
    type V = Seq<Frame>;

    closed spec fn view(&self) -> Seq<Frame> {
        self.stack@
    }
}

impl FrameStack {
    /// Opens a block.
    pub fn add_frame(&mut self, state: Frame)
        ensures
            final(self)@ == old(self)@.push(state),
    {
        self.stack.push(state);
    }

    /// Whether the innermost open block is of kind `state`.
    pub fn match_last(&mut self, state: &Frame) -> (r: bool)
        ensures
            final(self)@ == old(self)@,
            r == (old(self)@.len() > 0 && old(self)@.last() == *state),
    {
        if let Some(last) = self.stack.last() {
            if *last == *state {
                return true;
            }
            return false;
        };
        return false;
    }

    /// Closes the innermost block, if any.
    pub fn pop_last(&mut self)
        ensures
            final(self)@ == if old(self)@.len() > 0 {
                old(self)@.drop_last()
            } else {
                old(self)@
            },
    {
        self.stack.pop();
    }
}

/// How this language reads a token: `tal` and `nad` are names here.
pub open spec fn word(t: TokenV) -> TokenV {
    match t {
        TokenV::TalKw => TokenV::Literal("tal"@),
        TokenV::NadKw => TokenV::Literal("nad"@),
        other => other,
    }
}

fn read_token<'a>(t: Token<'a>) -> (r: Token<'a>)
    ensures
        r@ == word(t@),
{
    match t {
        Token::TalKw => Token::Literal("tal"),
        Token::NadKw => Token::Literal("nad"),
        other => other,
    }
}

/// An error at byte offset `pos`.
pub open spec fn err_at(pos: int, msg: Seq<char>) -> ErrorV {
    ErrorV { pos: Some(pos as usize), msg }
}

/// An error at the end of the input.
pub open spec fn err_eof(msg: Seq<char>) -> ErrorV {
    ErrorV { pos: None, msg }
}

/// A fresh node of kind `t` with children `c`.
pub open spec fn node(t: NodeTypeV, c: Seq<NodeV>) -> NodeV {
    NodeV { node_type: t, children: Some(c) }
}

/// Reading an identifier at token `i`: the name and the next index.
pub open spec fn ident_at(ts: Seq<SpanV>, i: int) -> Result<(Seq<char>, int), ErrorV> {
    if i < 0 || i >= ts.len() {
        Err(err_eof("expected an identifier"@))
    } else {
        match word(ts[i].token) {
            TokenV::Literal(s) => Ok((s, i + 1)),
            other => Err(err_at(ts[i].start, "expected an identifier, found "@ + token_text(other))),
        }
    }
}

/// What the body of a gap read from token `i` on gives: its figures after `acc`, the
/// index after it and the stack.
pub open spec fn gap_body(ts: Seq<SpanV>, i: int, acc: Seq<NodeV>, stack: Seq<Frame>) -> Result<
    (Seq<NodeV>, int, Seq<Frame>),
    ErrorV,
>
    decreases ts.len() - i,
{
    if i < 0 || i >= ts.len() {
        Ok((acc, i, stack))
    } else {
        let pos = ts[i].start;
        match word(ts[i].token) {
            TokenV::SeqKw => Err(err_at(pos, "cannot nest a sequence definition"@)),
            TokenV::SolKw => Err(err_at(pos, "use of restricted keyword 'sol'"@)),
            TokenV::Literal(s) => Err(err_at(pos, "cannot call '"@ + s + "' inside a gap"@)),
            TokenV::Figure(u) => gap_body(
                ts,
                i + 1,
                acc.push(node(NodeTypeV::Figure(u), Seq::empty())),
                stack,
            ),
            TokenV::SeqStart => Err(err_at(pos, "unexpected '{' (anonymous sequence)"@)),
            TokenV::SeqEnd => Err(err_at(pos, "unopened sequence block"@)),
            TokenV::GapStart => Err(err_at(pos, "cannot nest gaps"@)),
            TokenV::GapEnd => if stack.len() > 0 && stack.last() == Frame::Gap {
                Ok((acc, i + 1, stack.drop_last()))
            } else {
                Err(err_at(pos, "unmatched ')'"@))
            },
            _ => Ok((acc, i, stack)),
        }
    }
}

/// What a gap read from token `i` (its `(`) gives: the gap, the next index and the stack.
pub open spec fn gap_at(ts: Seq<SpanV>, i: int, stack: Seq<Frame>) -> Result<
    (NodeV, int, Seq<Frame>),
    ErrorV,
> {
    if i < 0 || i >= ts.len() {
        Err(err_eof("expected '(' to start a gap"@))
    } else {
        match word(ts[i].token) {
            TokenV::GapStart => match gap_body(ts, i + 1, Seq::empty(), stack.push(Frame::Gap)) {
                Ok((c, k, st)) => Ok((node(NodeTypeV::Gap, c), k, st)),
                Err(e) => Err(e),
            },
            other => Err(err_at(ts[i].start, "expected '(' to start a gap, found "@ + token_text(other))),
        }
    }
}

/// What the body of a sequence read from token `i` on gives: its children after `acc`,
/// the index after it and the stack.
pub open spec fn seq_body(ts: Seq<SpanV>, i: int, acc: Seq<NodeV>, stack: Seq<Frame>) -> Result<
    (Seq<NodeV>, int, Seq<Frame>),
    ErrorV,
>
    decreases ts.len() - i,
{
    if i < 0 || i >= ts.len() {
        Ok((acc, i, stack))
    } else {
        let pos = ts[i].start;
        match word(ts[i].token) {
            TokenV::SeqKw => Err(err_at(pos, "cannot nest a sequence definition"@)),
            TokenV::SolKw => Err(err_at(pos, "use of restricted keyword 'sol'"@)),
            TokenV::Literal(s) => Err(
                err_at(pos, "cannot call '"@ + s + "' inside a sequence (not yet supported)"@),
            ),
            TokenV::Figure(u) => seq_body(
                ts,
                i + 1,
                acc.push(node(NodeTypeV::Figure(u), Seq::empty())),
                stack,
            ),
            TokenV::SeqStart => Err(err_at(pos, "unexpected '{' (anonymous sequence)"@)),
            TokenV::SeqEnd => if stack.len() > 0 && stack.last() == Frame::Sequence {
                Ok((acc, i + 1, stack.drop_last()))
            } else {
                Err(err_at(pos, "unmatched '}'"@))
            },
            TokenV::GapStart => match gap_at(ts, i, stack) {
                Ok((g, k, st)) => if i < k <= ts.len() {
                    seq_body(ts, k, acc.push(g), st)
                } else {
                    Ok((acc, i, stack))
                },
                Err(e) => Err(e),
            },
            TokenV::GapEnd => Err(err_at(pos, "unexpected ')' (no matching gap)"@)),
            _ => Ok((acc, i, stack)),
        }
    }
}

/// What a sequence definition read from token `i` (its name) gives: the node, the next
/// index and the stack.
pub open spec fn seq_at(ts: Seq<SpanV>, i: int, stack: Seq<Frame>) -> Result<
    (NodeV, int, Seq<Frame>),
    ErrorV,
> {
    match ident_at(ts, i) {
        Err(e) => Err(e),
        Ok((name, j)) => if j >= ts.len() {
            Err(err_eof("expected '{' after sequence name"@))
        } else {
            match word(ts[j].token) {
                TokenV::SeqStart => match seq_body(ts, j + 1, Seq::empty(), stack.push(Frame::Sequence)) {
                    Ok((c, k, st)) => Ok((node(NodeTypeV::Sequence(name), c), k, st)),
                    Err(e) => Err(e),
                },
                other => Err(
                    err_at(ts[j].start, "expected '{' after sequence name, found "@ + token_text(other)),
                ),
            }
        },
    }
}

/// The index recorded for `k` among the entries `es`.
pub open spec fn index_of(es: Seq<(Seq<char>, usize)>, k: Seq<char>) -> Option<usize>
    decreases es.len(),
{
    if es.len() == 0 {
        None
    } else if es[0].0 == k {
        Some(es[0].1)
    } else {
        index_of(es.drop_first(), k)
    }
}

/// A symbol table reads back what was written: once `k` is recorded with `idx` (it was
/// not there before), looking `k` up gives `idx`, and looking up any other name gives
/// what it gave before.
pub proof fn law_index_of_after_insert(
    es: Seq<(Seq<char>, usize)>,
    k: Seq<char>,
    idx: usize,
    other: Seq<char>,
)
    requires
        index_of(es, k) is None,
    ensures
        index_of(es.push((k, idx)), k) == Some(idx),
        other != k ==> index_of(es.push((k, idx)), other) == index_of(es, other),
    decreases es.len(),
{
    if es.len() > 0 {
        assert(es.push((k, idx)).drop_first() =~= es.drop_first().push((k, idx)));
        assert(es.push((k, idx))[0] == es[0]);
        law_index_of_after_insert(es.drop_first(), k, idx, other);
    } else {
        assert(es.push((k, idx)).drop_first() =~= Seq::<(Seq<char>, usize)>::empty());
        assert(es.push((k, idx))[0] == (k, idx));
        assert(index_of(Seq::<(Seq<char>, usize)>::empty(), other) is None);
    }
}

/// What the top level read from token `i` on gives: the root's children after `acc` and
/// the symbol entries after `names`.
pub open spec fn top_at(
    ts: Seq<SpanV>,
    i: int,
    acc: Seq<NodeV>,
    names: Seq<(Seq<char>, usize)>,
    stack: Seq<Frame>,
) -> Result<(Seq<NodeV>, Seq<(Seq<char>, usize)>), ErrorV>
    decreases ts.len() - i,
{
    if i < 0 || i >= ts.len() {
        Ok((acc, names))
    } else {
        let pos = ts[i].start;
        match word(ts[i].token) {
            TokenV::SeqKw => match seq_at(ts, i + 1, stack) {
                Ok((n, k, st)) => {
                    let name = n.node_type->Sequence_0;
                    if index_of(names, name) is Some {
                        Err(err_at(pos, "sequence redefined: "@ + name))
                    } else if i < k <= ts.len() {
                        top_at(ts, k, acc.push(n), names.push((name, acc.len() as usize)), st)
                    } else {
                        Ok((acc, names))
                    }
                },
                Err(e) => Err(e),
            },
            TokenV::SolKw => Err(err_at(pos, "use of restricted keyword 'sol'"@)),
            TokenV::Literal(s) => top_at(
                ts,
                i + 1,
                acc.push(node(NodeTypeV::FnCall(s), Seq::empty())),
                names,
                stack,
            ),
            TokenV::Figure(u) => top_at(
                ts,
                i + 1,
                acc.push(node(NodeTypeV::Figure(u), Seq::empty())),
                names,
                stack,
            ),
            TokenV::SeqStart => Err(err_at(pos, "unexpected '{' (anonymous sequence)"@)),
            TokenV::SeqEnd => Err(err_at(pos, "unexpected '}' (no matching sequence)"@)),
            TokenV::GapStart => match gap_at(ts, i, stack) {
                Ok((g, k, st)) => if i < k <= ts.len() {
                    top_at(ts, k, acc.push(g), names, st)
                } else {
                    Ok((acc, names))
                },
                Err(e) => Err(e),
            },
            TokenV::GapEnd => Err(err_at(pos, "unexpected ')' (no matching gap)"@)),
            _ => Ok((acc, names)),
        }
    }
}

/// What parsing the tokens `ts` with the blocks `stack` open gives: the tree and the
/// symbol entries.
pub open spec fn parse_from(ts: Seq<SpanV>, stack: Seq<Frame>) -> Result<(NodeV, Seq<(Seq<char>, usize)>), ErrorV> {
    match top_at(ts, 0, Seq::empty(), Seq::empty(), stack) {
        Ok((c, names)) => Ok((node(NodeTypeV::Root, c), names)),
        Err(e) => Err(e),
    }
}

/// What parsing the tokens `ts` gives: the tree and the symbol entries.
pub open spec fn parse_tokens(ts: Seq<SpanV>) -> Result<(NodeV, Seq<(Seq<char>, usize)>), ErrorV> {
    parse_from(ts, Seq::empty())
}

/// The stack of open blocks where a gap read from token `i` fails: its frame is open
/// where it fails after its `(`.
pub open spec fn gap_fail(ts: Seq<SpanV>, i: int, stack: Seq<Frame>) -> Seq<Frame> {
    if 0 <= i < ts.len() && word(ts[i].token) is GapStart {
        stack.push(Frame::Gap)
    } else {
        stack
    }
}

/// The stack of open blocks where the body of a sequence read from token `i` on fails.
pub open spec fn seq_body_fail(ts: Seq<SpanV>, i: int, stack: Seq<Frame>) -> Seq<Frame>
    decreases ts.len() - i,
{
    if i < 0 || i >= ts.len() {
        stack
    } else {
        match word(ts[i].token) {
            TokenV::Figure(_) => seq_body_fail(ts, i + 1, stack),
            TokenV::GapStart => match gap_at(ts, i, stack) {
                Ok((_, k, st)) => if i < k <= ts.len() {
                    seq_body_fail(ts, k, st)
                } else {
                    stack
                },
                Err(_) => gap_fail(ts, i, stack),
            },
            _ => stack,
        }
    }
}

/// The stack of open blocks where a sequence definition read from token `i` fails:
/// unchanged where it fails before its `{`.
pub open spec fn seq_fail(ts: Seq<SpanV>, i: int, stack: Seq<Frame>) -> Seq<Frame> {
    if 0 <= i && i + 1 < ts.len() && word(ts[i].token) is Literal && word(ts[i + 1].token) is SeqStart {
        seq_body_fail(ts, i + 2, stack.push(Frame::Sequence))
    } else {
        stack
    }
}

pub proof fn lemma_gap_body_bounds(ts: Seq<SpanV>, i: int, acc: Seq<NodeV>, stack: Seq<Frame>)
    requires
        0 <= i <= ts.len(),
    ensures
        gap_body(ts, i, acc, stack) matches Ok((_, k, _)) ==> i <= k <= ts.len(),
    decreases ts.len() - i,
{
    if i < ts.len() {
        if let TokenV::Figure(u) = word(ts[i].token) {
            lemma_gap_body_bounds(ts, i + 1, acc.push(node(NodeTypeV::Figure(u), Seq::empty())), stack);
        }
    }
}

pub proof fn lemma_gap_bounds(ts: Seq<SpanV>, i: int, stack: Seq<Frame>)
    requires
        0 <= i <= ts.len(),
    ensures
        gap_at(ts, i, stack) matches Ok((_, k, _)) ==> i < k <= ts.len(),
{
    if i < ts.len() {
        lemma_gap_body_bounds(ts, i + 1, Seq::empty(), stack.push(Frame::Gap));
    }
}

pub proof fn lemma_seq_body_bounds(ts: Seq<SpanV>, i: int, acc: Seq<NodeV>, stack: Seq<Frame>)
    requires
        0 <= i <= ts.len(),
    ensures
        seq_body(ts, i, acc, stack) matches Ok((_, k, _)) ==> i <= k <= ts.len(),
    decreases ts.len() - i,
{
    if i < ts.len() {
        match word(ts[i].token) {
            TokenV::Figure(u) => lemma_seq_body_bounds(
                ts,
                i + 1,
                acc.push(node(NodeTypeV::Figure(u), Seq::empty())),
                stack,
            ),
            TokenV::GapStart => {
                lemma_gap_bounds(ts, i, stack);
                if let Ok((g, k, st)) = gap_at(ts, i, stack) {
                    lemma_seq_body_bounds(ts, k, acc.push(g), st);
                }
            },
            _ => {},
        }
    }
}

pub proof fn lemma_seq_bounds(ts: Seq<SpanV>, i: int, stack: Seq<Frame>)
    requires
        0 <= i <= ts.len(),
    ensures
        seq_at(ts, i, stack) matches Ok((n, k, _)) ==> i < k <= ts.len() && n.node_type is Sequence,
{
    if i + 1 < ts.len() {
        lemma_seq_body_bounds(ts, i + 2, Seq::empty(), stack.push(Frame::Sequence));
    }
}

/// The error that `r` holds has the view `e`.
pub open spec fn fails_with<T>(r: Result<T, ParseError>, e: ErrorV) -> bool {
    r matches Err(x) && x@ == e
}

fn parse_ident<'a>(toks: &Vec<Span<'a>>, at: usize) -> (r: Result<(&'a str, usize), ParseError>)
    ensures
        match ident_at(spans_view(toks@), at as int) {
            Ok((s, k)) => r matches Ok((x, k2)) && x@ == s && k2 == k,
            Err(e) => fails_with(r, e),
        },
{
    if at >= toks.len() {
        return Err(ParseError::eof("expected an identifier"));
    }
    let span = toks[at];
    assert(spans_view(toks@)[at as int] == span@);
    match read_token(span.token) {
        Token::Literal(s) => Ok((s, at + 1)),
        other => {
            let msg = joined("expected an identifier, found ", other.to_text().as_str());
            Err(ParseError::at(span.start, msg.as_str()))
        },
    }
}

/// Reads a gap from token `at` (its `(`); gives the gap and the index after it.
fn parse_gap<'a>(toks: &Vec<Span<'a>>, at: usize, stack: &mut FrameStack) -> (r: Result<
    (Node<'a>, usize),
    ParseError,
>)
    requires
        at <= toks.len(),
    ensures
        match gap_at(spans_view(toks@), at as int, old(stack)@) {
            Ok((g, k, st)) => r matches Ok((n, k2)) && n@ == g && k2 == k && final(stack)@ == st,
            Err(e) => fails_with(r, e) && final(stack)@ == gap_fail(spans_view(toks@), at as int, old(stack)@),
        },
{
    let ghost ts = spans_view(toks@);
    let mut ret = Node::new(NodeType::Gap);
    if at >= toks.len() {
        return Err(ParseError::eof("expected '(' to start a gap"));
    }
    let sp1 = toks[at];
    assert(ts[at as int] == sp1@);
    match read_token(sp1.token) {
        Token::GapStart => {
            stack.add_frame(Frame::Gap);
        },
        other => {
            let msg = joined("expected '(' to start a gap, found ", other.to_text().as_str());
            return Err(ParseError::at(sp1.start, msg.as_str()));
        },
    }
    let mut cur = at + 1;
    let ghost first = cur;
    while cur < toks.len()
        invariant
            first == at + 1,
            first <= cur <= toks.len(),
            ts == spans_view(toks@),
            ret.node_type == NodeType::<'a>::Gap,
            ret@.children is Some,
            stack@ == old(stack)@.push(Frame::Gap),
            gap_fail(ts, at as int, old(stack)@) == old(stack)@.push(Frame::Gap),
            gap_body(ts, cur as int, kids(ret@), stack@) == gap_body(
                ts,
                first as int,
                Seq::empty(),
                old(stack)@.push(Frame::Gap),
            ),
            gap_at(ts, at as int, old(stack)@) == match gap_body(
                ts,
                first as int,
                Seq::empty(),
                old(stack)@.push(Frame::Gap),
            ) {
                Ok((c, k, st)) => Ok((node(NodeTypeV::Gap, c), k, st)),
                Err(e) => Err(e),
            },
        decreases toks.len() - cur,
    {
        let span = toks[cur];
        let pos = span.start;
        assert(ts[cur as int] == span@);
        let t = read_token(span.token);
        assert(word(ts[cur as int].token) == t@);
        match t {
            Token::SeqKw => {
                return Err(ParseError::at(pos, "cannot nest a sequence definition"));
            },
            Token::SolKw => {
                return Err(ParseError::at(pos, "use of restricted keyword 'sol'"));
            },
            Token::Literal(s) => {
                let mut msg = joined("cannot call '", s);
                msg.append("' inside a gap");
                return Err(ParseError::at(pos, msg.as_str()));
            },
            Token::Figure(u) => {
                ret.insert_node(Node::new(NodeType::Figure(u)));
                cur = cur + 1;
            },
            Token::SeqStart => {
                return Err(ParseError::at(pos, "unexpected '{' (anonymous sequence)"));
            },
            Token::SeqEnd => {
                return Err(ParseError::at(pos, "unopened sequence block"));
            },
            Token::GapStart => {
                return Err(ParseError::at(pos, "cannot nest gaps"));
            },
            Token::GapEnd => {
                cur = cur + 1;
                if stack.match_last(&Frame::Gap) {
                    stack.pop_last();
                    return Ok((ret, cur));
                } else {
                    return Err(ParseError::at(pos, "unmatched ')'"));
                }
            },
            _ => {
                return Ok((ret, cur));
            },
        }
    }
    Ok((ret, cur))
}

/// Reads a sequence definition from token `at` (its name); gives it and the index after it.
fn parse_seq<'a>(toks: &Vec<Span<'a>>, at: usize, stack: &mut FrameStack) -> (r: Result<
    (Node<'a>, usize),
    ParseError,
>)
    requires
        at <= toks.len(),
    ensures
        match seq_at(spans_view(toks@), at as int, old(stack)@) {
            Ok((n, k, st)) => r matches Ok((x, k2)) && x@ == n && k2 == k && final(stack)@ == st
                && x.node_type is Sequence,
            Err(e) => fails_with(r, e) && final(stack)@ == seq_fail(spans_view(toks@), at as int, old(stack)@),
        },
{
    let ghost ts = spans_view(toks@);
    let name = match parse_ident(toks, at) {
        Ok((name, _)) => name,
        Err(e) => {
            return Err(e);
        },
    };
    let mut ret = Node::new(NodeType::Sequence(name));
    if at + 1 >= toks.len() {
        return Err(ParseError::eof("expected '{' after sequence name"));
    }
    let sp1 = toks[at + 1];
    assert(ts[at + 1] == sp1@);
    match read_token(sp1.token) {
        Token::SeqStart => {
            stack.add_frame(Frame::Sequence);
        },
        other => {
            let msg = joined("expected '{' after sequence name, found ", other.to_text().as_str());
            return Err(ParseError::at(sp1.start, msg.as_str()));
        },
    }
    let mut cur = at + 2;
    let ghost first = cur;
    while cur < toks.len()
        invariant
            first == at + 2,
            first <= cur <= toks.len(),
            ts == spans_view(toks@),
            ret.node_type == NodeType::<'a>::Sequence(name),
            ret@.children is Some,
            seq_body_fail(ts, cur as int, stack@) == seq_body_fail(
                ts,
                first as int,
                old(stack)@.push(Frame::Sequence),
            ),
            seq_fail(ts, at as int, old(stack)@) == seq_body_fail(
                ts,
                first as int,
                old(stack)@.push(Frame::Sequence),
            ),
            seq_body(ts, cur as int, kids(ret@), stack@) == seq_body(
                ts,
                first as int,
                Seq::empty(),
                old(stack)@.push(Frame::Sequence),
            ),
            seq_at(ts, at as int, old(stack)@) == match seq_body(
                ts,
                first as int,
                Seq::empty(),
                old(stack)@.push(Frame::Sequence),
            ) {
                Ok((c, k, st)) => Ok((node(NodeTypeV::Sequence(name@), c), k, st)),
                Err(e) => Err(e),
            },
        decreases toks.len() - cur,
    {
        let span = toks[cur];
        let pos = span.start;
        assert(ts[cur as int] == span@);
        let t = read_token(span.token);
        assert(word(ts[cur as int].token) == t@);
        match t {
            Token::SeqKw => {
                return Err(ParseError::at(pos, "cannot nest a sequence definition"));
            },
            Token::SolKw => {
                return Err(ParseError::at(pos, "use of restricted keyword 'sol'"));
            },
            Token::Literal(s) => {
                let mut msg = joined("cannot call '", s);
                msg.append("' inside a sequence (not yet supported)");
                return Err(ParseError::at(pos, msg.as_str()));
            },
            Token::Figure(u) => {
                ret.insert_node(Node::new(NodeType::Figure(u)));
                cur = cur + 1;
            },
            Token::SeqStart => {
                return Err(ParseError::at(pos, "unexpected '{' (anonymous sequence)"));
            },
            Token::SeqEnd => {
                cur = cur + 1;
                if stack.match_last(&Frame::Sequence) {
                    stack.pop_last();
                    return Ok((ret, cur));
                } else {
                    return Err(ParseError::at(pos, "unmatched '}'"));
                }
            },
            Token::GapStart => {
                proof {
                    lemma_gap_bounds(ts, cur as int, stack@);
                }
                match parse_gap(toks, cur, stack) {
                    Ok((n, k)) => {
                        ret.insert_node(n);
                        cur = k;
                    },
                    Err(e) => {
                        return Err(e);
                    },
                }
            },
            Token::GapEnd => {
                return Err(ParseError::at(pos, "unexpected ')' (no matching gap)"));
            },
            _ => {
                return Ok((ret, cur));
            },
        }
    }
    Ok((ret, cur))
}

/// The names of the sequences defined so far, with the index of each in the root.
#[derive(Debug)]
pub struct SymbolTable<'a> {
    table: Vec<(&'a str, usize)>,
}

/// The entries of a table, with names as characters.
pub open spec fn table_view<'a>(t: Seq<(&'a str, usize)>) -> Seq<(Seq<char>, usize)> {
    t.map_values(|e: (&'a str, usize)| (e.0@, e.1))
}

impl<'a> SymbolTable<'a> {
    /// The entries, in the order of definition.
    pub closed spec fn entries(&self) -> Seq<(Seq<char>, usize)> {
        table_view(self.table@)
    }

    /// An empty table.
    pub fn new() -> (r: Self)
        ensures
            r.entries() == Seq::<(Seq<char>, usize)>::empty(),
    {
        let r = Self { table: Vec::new() };
        assert(r.entries() =~= Seq::<(Seq<char>, usize)>::empty());
        r
    }

    fn find(&self, k: &str) -> (r: Option<usize>)
        ensures
            r == index_of(self.entries(), k@),
    {
        let ghost es = self.entries();
        let mut i: usize = 0;
        assert(es.subrange(0, es.len() as int) =~= es);
        while i < self.table.len()
            invariant
                i <= self.table.len(),
                es == self.entries(),
                es.len() == self.table.len(),
                index_of(es, k@) == index_of(es.subrange(i as int, es.len() as int), k@),
            decreases self.table.len() - i,
        {
            let (name, idx) = self.table[i];
            assert(es.subrange(i as int, es.len() as int)[0] == (name@, idx));
            assert(es.subrange(i as int, es.len() as int).drop_first() =~= es.subrange(
                i + 1,
                es.len() as int,
            ));
            if same_text(name, k) {
                return Some(idx);
            }
            i = i + 1;
        }
        assert(es.subrange(i as int, es.len() as int) =~= Seq::<(Seq<char>, usize)>::empty());
        None
    }

    /// Records that the sequence `k`, defined at byte offset `pos`, is child `idx` of the
    /// root; a name already there is an error.
    pub fn insert(&mut self, k: &'a str, idx: usize, pos: usize) -> (r: Result<(), ParseError>)
        ensures
            index_of(old(self).entries(), k@) is Some ==> fails_with(
                r,
                err_at(pos as int, "sequence redefined: "@ + k@),
            ) && final(self).entries() == old(self).entries(),
            index_of(old(self).entries(), k@) is None ==> r is Ok && final(self).entries() == old(
                self,
            ).entries().push((k@, idx)),
    {
        if self.find(k).is_some() {
            let msg = joined("sequence redefined: ", k);
            return Err(ParseError::at(pos, msg.as_str()));
        }
        let ghost before = self.table@;
        self.table.push((k, idx));
        assert(table_view(self.table@) =~= table_view(before).push((k@, idx)));
        Ok(())
    }

    /// The index of the sequence `k`, which must be defined.
    pub fn get(&self, k: &'a str) -> (r: usize)
        requires
            index_of(self.entries(), k@) is Some,
        ensures
            index_of(self.entries(), k@) == Some(r),
    {
        match self.find(k) {
            Some(i) => i,
            None => {
                proof {
                    assert(false);
                }
                unreached()
            },
        }
    }
}

/// A parser over the tokens of a source text.
pub struct Parser<'p> {
    tok_stream: Vec<Span<'p>>,
    stack: FrameStack,
}

impl<'p> Parser<'p> {
    /// The tokens still to be read.
    pub closed spec fn tokens(&self) -> Seq<SpanV> {
        spans_view(self.tok_stream@)
    }

    /// The blocks left open.
    pub closed spec fn open_frames(&self) -> Seq<Frame> {
        self.stack@
    }

    /// A parser over the tokens that `value` hands out.
    pub fn from(value: Tokenizer<'p>) -> (r: Self)
        ensures
            r.tokens() == lex_from(value.text(), value.position()),
            r.open_frames() == Seq::<Frame>::empty(),
    {
        Self { tok_stream: value.spans(), stack: FrameStack { stack: Vec::new() } }
    }

    /// Builds the tree of the tokens and the table of the sequences it defines.
    pub fn parse(self) -> (r: Result<(Node<'p>, SymbolTable<'p>), ParseError>)
        ensures
            match parse_from(self.tokens(), self.open_frames()) {
                Ok((n, es)) => r matches Ok((x, t)) && x@ == n && t.entries() == es,
                Err(e) => fails_with(r, e),
            },
    {
        let ghost ts = self.tokens();
        let Parser { tok_stream: toks, stack } = self;
        let mut stack = stack;
        let mut tree = Node::new(NodeType::Root);
        let mut sym_table = SymbolTable::new();
        let mut at: usize = 0;
        assert(kids(tree@) =~= Seq::<NodeV>::empty());
        while at < toks.len()
            invariant
                ts == spans_view(toks@),
                ts == self.tokens(),
                at <= toks.len(),
                tree.node_type == NodeType::<'p>::Root,
                tree@.children is Some,
                match top_at(ts, at as int, kids(tree@), sym_table.entries(), stack@) {
                    Ok((c, es)) => Ok::<(NodeV, Seq<(Seq<char>, usize)>), ErrorV>((node(NodeTypeV::Root, c), es)),
                    Err(e) => Err(e),
                } == parse_from(ts, self.open_frames()),
            decreases toks.len() - at,
        {
            let span = toks[at];
            let pos = span.start;
            assert(ts[at as int] == span@);
            let t = read_token(span.token);
            assert(word(ts[at as int].token) == t@);
            match t {
                Token::SeqKw => {
                    proof {
                        lemma_seq_bounds(ts, at + 1, stack@);
                    }
                    match parse_seq(&toks, at + 1, &mut stack) {
                        Ok((n, k)) => {
                            let id = n.get_name();
                            let idx = tree.insert_node(n);
                            match sym_table.insert(id, idx, pos) {
                                Ok(()) => {},
                                Err(e) => {
                                    return Err(e);
                                },
                            }
                            at = k;
                        },
                        Err(e) => {
                            return Err(e);
                        },
                    }
                },
                Token::SolKw => {
                    return Err(ParseError::at(pos, "use of restricted keyword 'sol'"));
                },
                Token::Literal(s) => {
                    tree.insert_node(Node::new(NodeType::FnCall(s)));
                    at = at + 1;
                },
                Token::Figure(u) => {
                    tree.insert_node(Node::new(NodeType::Figure(u)));
                    at = at + 1;
                },
                Token::SeqStart => {
                    return Err(ParseError::at(pos, "unexpected '{' (anonymous sequence)"));
                },
                Token::SeqEnd => {
                    return Err(ParseError::at(pos, "unexpected '}' (no matching sequence)"));
                },
                Token::GapStart => {
                    proof {
                        lemma_gap_bounds(ts, at as int, stack@);
                    }
                    match parse_gap(&toks, at, &mut stack) {
                        Ok((n, k)) => {
                            tree.insert_node(n);
                            at = k;
                        },
                        Err(e) => {
                            return Err(e);
                        },
                    }
                },
                Token::GapEnd => {
                    return Err(ParseError::at(pos, "unexpected ')' (no matching gap)"));
                },
                _ => {
                    assert(false);
                    at = at + 1;
                },
            }
        }
        Ok((tree, sym_table))
    }
}

} // verus!
