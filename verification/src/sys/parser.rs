//! The parser of the current language: tokens to a program tree.
//!
//! A program starts with `tal <figure>`. At its top level stand sequence
//! definitions `seq <name> { ... }`, gaps `( ... )`, figures, calls of sequences
//! by name, and `tal`/`nad` declarations. A sequence holds figures and gaps; a gap
//! holds figures. A definition or gap that the input ends inside is closed there.
use vstd::prelude::*;
use crate::sys::ast::{ast_view, lemma_ast_views_push, ASTNode, AstV};
use crate::sys::warnings::{eof_message, Error, ErrorV};
use crate::sys::{Program, ProgramV};
use crate::parse::{index_of, table_view};
use crate::text::{joined, same_text};
use crate::tokenize::{lex_from, spans_view, token_text, Span, SpanV, Token, TokenV, Tokenizer};

verus! {

/// The kind of an open block.
#[derive(Debug, Clone, Copy, PartialEq, Eq, Structural)]
pub enum Frame {
    Sequence,
    Gap,
}

/// The stack of open blocks.
#[derive(Debug)]
pub struct FrameStack {
    stack: Vec<Frame>,
}

impl View for FrameStack {
    type V = Seq<Frame>;

    closed spec fn view(&self) -> Seq<Frame> {
        self.stack@
    }
}

impl FrameStack {
    /// Opens a block.
    pub fn add_frame(&mut self, state: Frame)
        ensures
            final(self)@ == old(self)@.push(state),
    {
        self.stack.push(state);
    }

    /// Whether the innermost open block is of kind `state`.
    pub fn match_last(&mut self, state: &Frame) -> (r: bool)
        ensures
            final(self)@ == old(self)@,
            r == (old(self)@.len() > 0 && old(self)@.last() == *state),
    {
        if let Some(last) = self.stack.last() {
            if *last == *state {
                return true;
            }
            return false;
        };
        return false;
    }

    /// Closes the innermost block, if any.
    pub fn pop_last(&mut self)
        ensures
            final(self)@ == if old(self)@.len() > 0 {
                old(self)@.drop_last()
            } else {
                old(self)@
            },
    {
        self.stack.pop();
    }
}

/// Opening a block makes it the innermost, and closing it then gives back the stack
/// as it was before.
pub proof fn law_open_then_close(stack: Seq<Frame>, f: Frame)
    ensures
        stack.push(f).len() > 0 && stack.push(f).last() == f,
        stack.push(f).drop_last() == stack,
{
    assert(stack.push(f).drop_last() =~= stack);
}

/// An error at byte offset `pos`.
pub open spec fn err_at(pos: int, msg: Seq<char>) -> ErrorV {
    ErrorV { pos: Some(pos as usize), msg }
}

/// An error at the end of the input.
pub open spec fn err_eof(msg: Seq<char>) -> ErrorV {
    ErrorV { pos: None, msg: eof_message(msg) }
}

/// The kind of block whose body is being read.
#[derive(Clone, Copy)]
pub enum BodyKind {
    Sequence,
    Gap,
}

/// How a block kind is named in messages.
pub open spec fn kind_name(kind: BodyKind) -> Seq<char> {
    match kind {
        BodyKind::Sequence => "a sequence"@,
        BodyKind::Gap => "a gap"@,
    }
}

impl BodyKind {
    /// How the kind is named in messages.
    pub fn name(&self) -> (r: &'static str)
        ensures
            r@ == kind_name(*self),
    {
        match self {
            BodyKind::Sequence => "a sequence",
            BodyKind::Gap => "a gap",
        }
    }
}

/// Reading a figure at token `i`: the figure and the next index.
pub open spec fn figure_at(ts: Seq<SpanV>, i: int) -> Result<(usize, int), ErrorV> {
    if i >= ts.len() {
        Err(err_eof("expected a figure"@))
    } else {
        match ts[i].token {
            TokenV::Figure(u) => Ok((u, i + 1)),
            other => Err(err_at(ts[i].start, "expected an figure, found "@ + token_text(other))),
        }
    }
}

/// Reading an identifier at token `i`: the name and the next index.
pub open spec fn ident_at(ts: Seq<SpanV>, i: int) -> Result<(Seq<char>, int), ErrorV> {
    if i >= ts.len() {
        Err(err_eof("expected an identifier"@))
    } else {
        match ts[i].token {
            TokenV::Literal(s) => Ok((s, i + 1)),
            other => Err(err_at(ts[i].start, "expected an identifier, found "@ + token_text(other))),
        }
    }
}

/// What a block body read from token `i` on gives: the children after `acc`, the index
/// after the body, and the stack of open blocks.
pub open spec fn body_at(
    ts: Seq<SpanV>,
    i: int,
    kind: BodyKind,
    acc: Seq<AstV>,
    stack: Seq<Frame>,
) -> Result<(Seq<AstV>, int, Seq<Frame>), ErrorV>
    decreases ts.len() - i, if kind is Sequence { 2int } else { 0int },
{
    if i < 0 || i >= ts.len() {
        Ok((acc, i, stack))
    } else {
        let pos = ts[i].start;
        match ts[i].token {
            TokenV::SeqKw => Err(err_at(pos, "cannot nest a sequence definition"@)),
            TokenV::SolKw => Err(err_at(pos, "use of restricted keyword 'sol'"@)),
            TokenV::TalKw => Err(err_at(pos, "cannot invoke 'tal' inside "@ + kind_name(kind))),
            TokenV::NadKw => Err(err_at(pos, "cannot invoke 'nad' inside "@ + kind_name(kind))),
            TokenV::Literal(s) => Err(
                err_at(pos, "cannot call '"@ + s + "' inside "@ + kind_name(kind)),
            ),
            TokenV::Figure(u) => body_at(ts, i + 1, kind, acc.push(AstV::Figure(u)), stack),
            TokenV::SeqStart => Err(err_at(pos, "unexpected '{' (anonymous sequence)"@)),
            TokenV::SeqEnd => match kind {
                BodyKind::Sequence => if stack.len() > 0 && stack.last() == Frame::Sequence {
                    Ok((acc, i + 1, stack.drop_last()))
                } else {
                    Err(err_at(pos, "unmatched '}'"@))
                },
                BodyKind::Gap => Err(err_at(pos, "unopened sequence block"@)),
            },
            TokenV::GapStart => match kind {
                BodyKind::Sequence => match gap_at(ts, i, stack) {
                    Ok((g, k, st)) => if i < k <= ts.len() {
                        body_at(ts, k, kind, acc.push(AstV::Gap(g)), st)
                    } else {
                        Ok((acc, i, stack))
                    },
                    Err(e) => Err(e),
                },
                BodyKind::Gap => Err(err_at(pos, "cannot nest gaps"@)),
            },
            TokenV::GapEnd => match kind {
                BodyKind::Gap => if stack.len() > 0 && stack.last() == Frame::Gap {
                    Ok((acc, i + 1, stack.drop_last()))
                } else {
                    Err(err_at(pos, "unmatched ')'"@))
                },
                BodyKind::Sequence => Err(err_at(pos, "unexpected ')' (no matching gap)"@)),
            },
        }
    }
}

/// What a gap read from token `i` (its `(`) gives: its figures, the next index and the stack.
pub open spec fn gap_at(ts: Seq<SpanV>, i: int, stack: Seq<Frame>) -> Result<
    (Seq<AstV>, int, Seq<Frame>),
    ErrorV,
>
    decreases ts.len() - i, 1int,
{
    if i < 0 || i >= ts.len() {
        Err(err_eof("expected '(' to start a gap"@))
    } else {
        match ts[i].token {
            TokenV::GapStart => body_at(ts, i + 1, BodyKind::Gap, Seq::empty(), stack.push(Frame::Gap)),
            other => Err(err_at(ts[i].start, "expected '(' to start a gap, found "@ + token_text(other))),
        }
    }
}

/// What a sequence definition read from token `i` (its name) gives: its name, its
/// children, the next index and the stack.
pub open spec fn seq_at(ts: Seq<SpanV>, i: int, stack: Seq<Frame>) -> Result<
    (Seq<char>, Seq<AstV>, int, Seq<Frame>),
    ErrorV,
> {
    match ident_at(ts, i) {
        Err(e) => Err(e),
        Ok((name, j)) => if j >= ts.len() {
            Err(err_eof("expected '{' after sequence name"@))
        } else {
            match ts[j].token {
                TokenV::SeqStart => match body_at(ts, j + 1, BodyKind::Sequence, Seq::empty(), stack.push(Frame::Sequence)) {
                    Ok((c, k, st)) => Ok((name, c, k, st)),
                    Err(e) => Err(e),
                },
                other => Err(err_at(ts[j].start, "expected '{' after sequence name, found "@ + token_text(other))),
            }
        },
    }
}

/// The sequences among `nodes`: each name with its index among `nodes`.
pub open spec fn symbol_entries(nodes: Seq<AstV>) -> Seq<(Seq<char>, usize)>
    decreases nodes.len(),
{
    if nodes.len() == 0 {
        Seq::empty()
    } else {
        let rest = symbol_entries(nodes.drop_last());
        match nodes.last() {
            AstV::Sequence(s, _) => rest.push((s, (nodes.len() - 1) as usize)),
            _ => rest,
        }
    }
}

/// What the top level read from token `i` on gives: the root's children after `acc`.
pub open spec fn top_at(ts: Seq<SpanV>, i: int, acc: Seq<AstV>, stack: Seq<Frame>) -> Result<Seq<AstV>, ErrorV>
    decreases ts.len() - i, 3int,
{
    if i < 0 || i >= ts.len() {
        Ok(acc)
    } else {
        let pos = ts[i].start;
        match ts[i].token {
            TokenV::SeqKw => match seq_at(ts, i + 1, stack) {
                Ok((name, c, k, st)) => if index_of(symbol_entries(acc), name) is Some {
                    Err(err_at(pos, "sequence redefined: "@ + name))
                } else if i < k <= ts.len() {
                    top_at(ts, k, acc.push(AstV::Sequence(name, c)), st)
                } else {
                    Ok(acc)
                },
                Err(e) => Err(e),
            },
            TokenV::SolKw => Err(err_at(pos, "use of restricted keyword 'sol'"@)),
            TokenV::TalKw => match figure_at(ts, i + 1) {
                Ok((u, k)) => top_at(ts, k, acc.push(AstV::Tal(u)), stack),
                Err(e) => Err(e),
            },
            TokenV::NadKw => match figure_at(ts, i + 1) {
                Ok((u, k)) => top_at(ts, k, acc.push(AstV::Nad(u)), stack),
                Err(e) => Err(e),
            },
            TokenV::Literal(s) => top_at(ts, i + 1, acc.push(AstV::FnCall(s)), stack),
            TokenV::Figure(u) => top_at(ts, i + 1, acc.push(AstV::Figure(u)), stack),
            TokenV::SeqStart => Err(err_at(pos, "unexpected '{' (anonymous sequence)"@)),
            TokenV::SeqEnd => Err(err_at(pos, "unexpected '}' (no matching sequence)"@)),
            TokenV::GapStart => match gap_at(ts, i, stack) {
                Ok((g, k, st)) => if i < k <= ts.len() {
                    top_at(ts, k, acc.push(AstV::Gap(g)), st)
                } else {
                    Ok(acc)
                },
                Err(e) => Err(e),
            },
            TokenV::GapEnd => Err(err_at(pos, "unexpected ')' (no matching gap)"@)),
        }
    }
}

/// What parsing the tokens `ts` gives.
pub open spec fn parse_tokens(ts: Seq<SpanV>) -> Result<ProgramV, ErrorV> {
    if ts.len() == 0 {
        Err(err_at(0, "Expected tal decl at beginning of file"@))
    } else if !(ts[0].token is TalKw) {
        Err(err_at(ts[0].start, "Expected tal decl at beginning of file"@))
    } else {
        match figure_at(ts, 1) {
            Err(e) => Err(e),
            Ok((u, k)) => match top_at(ts, k, seq![AstV::Tal(u), AstV::Nad(4)], Seq::empty()) {
                Ok(children) => Ok(
                    ProgramV { root: AstV::Root(children), tal: u, symbols: symbol_entries(children) },
                ),
                Err(e) => Err(e),
            },
        }
    }
}


/// Where a body read from token `i` on fails: the children of the block then (`acc`
/// and the figures and gaps read before the failing token) and the stack of open blocks
/// then.
pub open spec fn body_fail(
    ts: Seq<SpanV>,
    i: int,
    kind: BodyKind,
    acc: Seq<AstV>,
    stack: Seq<Frame>,
) -> (Seq<AstV>, Seq<Frame>)
    decreases ts.len() - i, if kind is Sequence { 2int } else { 0int },
{
    if i < 0 || i >= ts.len() {
        (acc, stack)
    } else {
        match ts[i].token {
            TokenV::Figure(u) => body_fail(ts, i + 1, kind, acc.push(AstV::Figure(u)), stack),
            TokenV::GapStart => match kind {
                BodyKind::Sequence => match gap_at(ts, i, stack) {
                    Ok((g, k, st)) => if i < k <= ts.len() {
                        body_fail(ts, k, kind, acc.push(AstV::Gap(g)), st)
                    } else {
                        (acc, stack)
                    },
                    Err(_) => (acc, gap_fail(ts, i, stack)),
                },
                BodyKind::Gap => (acc, stack),
            },
            _ => (acc, stack),
        }
    }
}

/// The stack of open blocks where a gap read from token `i` fails.
pub open spec fn gap_fail(ts: Seq<SpanV>, i: int, stack: Seq<Frame>) -> Seq<Frame>
    decreases ts.len() - i, 1int,
{
    if 0 <= i < ts.len() && ts[i].token is GapStart {
        body_fail(ts, i + 1, BodyKind::Gap, Seq::empty(), stack.push(Frame::Gap)).1
    } else {
        stack
    }
}

/// The stack of open blocks where a sequence definition read from token `i` fails:
/// unchanged where it fails before its `{`.
pub open spec fn seq_fail(ts: Seq<SpanV>, i: int, stack: Seq<Frame>) -> Seq<Frame> {
    if 0 <= i && i + 1 < ts.len() && ts[i].token is Literal && ts[i + 1].token is SeqStart {
        body_fail(ts, i + 2, BodyKind::Sequence, Seq::empty(), stack.push(Frame::Sequence)).1
    } else {
        stack
    }
}

/// A body read from `i` ends at or after `i`, inside the tokens.
pub proof fn lemma_body_bounds(ts: Seq<SpanV>, i: int, kind: BodyKind, acc: Seq<AstV>, stack: Seq<Frame>)
    requires
        0 <= i <= ts.len(),
    ensures
        body_at(ts, i, kind, acc, stack) matches Ok((_, k, _)) ==> i <= k <= ts.len(),
    decreases ts.len() - i, if kind is Sequence { 2int } else { 0int },
{
    if i < ts.len() {
        match ts[i].token {
            TokenV::Figure(u) => lemma_body_bounds(ts, i + 1, kind, acc.push(AstV::Figure(u)), stack),
            TokenV::GapStart => {
                if kind is Sequence {
                    lemma_gap_bounds(ts, i, stack);
                    if let Ok((g, k, st)) = gap_at(ts, i, stack) {
                        lemma_body_bounds(ts, k, kind, acc.push(AstV::Gap(g)), st);
                    }
                }
            },
            _ => {},
        }
    }
}

/// A gap read from `i` ends after `i`, inside the tokens.
pub proof fn lemma_gap_bounds(ts: Seq<SpanV>, i: int, stack: Seq<Frame>)
    requires
        0 <= i <= ts.len(),
    ensures
        gap_at(ts, i, stack) matches Ok((_, k, _)) ==> i < k <= ts.len(),
    decreases ts.len() - i, 1int,
{
    if i < ts.len() {
        lemma_body_bounds(ts, i + 1, BodyKind::Gap, Seq::empty(), stack.push(Frame::Gap));
    }
}

/// A sequence definition read from `i` ends after `i`, inside the tokens.
pub proof fn lemma_seq_bounds(ts: Seq<SpanV>, i: int, stack: Seq<Frame>)
    requires
        0 <= i <= ts.len(),
    ensures
        seq_at(ts, i, stack) matches Ok((_, _, k, _)) ==> i < k <= ts.len(),
{
    if i + 1 < ts.len() {
        lemma_body_bounds(ts, i + 2, BodyKind::Sequence, Seq::empty(), stack.push(Frame::Sequence));
    }
}

/// The error that `r` holds has the view `e`.
pub open spec fn is_error<T>(r: Result<T, Error>, e: ErrorV) -> bool {
    r matches Err(x) && x@ == e
}

fn parse_ident<'a>(toks: &Vec<Span<'a>>, at: usize) -> (r: Result<(&'a str, usize), Error>)
    ensures
        match ident_at(spans_view(toks@), at as int) {
            Ok((s, k)) => r matches Ok((x, k2)) && x@ == s && k2 == k,
            Err(e) => is_error(r, e),
        },
{
    if at >= toks.len() {
        return Err(Error::eof("expected an identifier"));
    }
    let span = toks[at];
    assert(spans_view(toks@)[at as int] == span@);
    match span.token {
        Token::Literal(s) => Ok((s, at + 1)),
        other => {
            let msg = joined("expected an identifier, found ", other.to_text().as_str());
            Err(Error::at(span.start, msg.as_str()))
        },
    }
}

fn parse_figure<'a>(toks: &Vec<Span<'a>>, at: usize) -> (r: Result<(usize, usize), Error>)
    ensures
        match figure_at(spans_view(toks@), at as int) {
            Ok((u, k)) => r matches Ok((u2, k2)) && u2 == u && k2 == k,
            Err(e) => is_error(r, e),
        },
{
    if at >= toks.len() {
        return Err(Error::eof("expected a figure"));
    }
    let span = toks[at];
    assert(spans_view(toks@)[at as int] == span@);
    match span.token {
        Token::Figure(u) => Ok((u, at + 1)),
        other => {
            let msg = joined("expected an figure, found ", other.to_text().as_str());
            Err(Error::at(span.start, msg.as_str()))
        },
    }
}

fn parse_tal<'a>(toks: &Vec<Span<'a>>, at: usize) -> (r: Result<(ASTNode<'a>, usize, usize), Error>)
    ensures
        match figure_at(spans_view(toks@), at as int) {
            Ok((u, k)) => r matches Ok((n, u2, k2)) && n == ASTNode::<'a>::Tal(u) && u2 == u && k2 == k,
            Err(e) => is_error(r, e),
        },
{
    match parse_figure(toks, at) {
        Ok((u, k)) => Ok((ASTNode::Tal(u), u, k)),
        Err(e) => Err(e),
    }
}

fn parse_nad<'a>(toks: &Vec<Span<'a>>, at: usize) -> (r: Result<(ASTNode<'a>, usize), Error>)
    ensures
        match figure_at(spans_view(toks@), at as int) {
            Ok((u, k)) => r matches Ok((n, k2)) && n == ASTNode::<'a>::Nad(u) && k2 == k,
            Err(e) => is_error(r, e),
        },
{
    match parse_figure(toks, at) {
        Ok((u, k)) => Ok((ASTNode::Nad(u), k)),
        Err(e) => Err(e),
    }
}

/// Reads a block body from token `at` on into `target`; gives the index after it.
fn parse_body<'a>(
    toks: &Vec<Span<'a>>,
    at: usize,
    stack: &mut FrameStack,
    kind: BodyKind,
    target: &mut ASTNode<'a>,
) -> (r: Result<usize, Error>)
    requires
        at <= toks.len(),
        old(target)@.has_children(),
    ensures
        match body_at(spans_view(toks@), at as int, kind, old(target)@.children(), old(stack)@) {
            Ok((c, k, st)) => r matches Ok(k2) && k2 == k && final(target)@ == old(
                target,
            )@.with_children(c) && final(stack)@ == st,
            Err(e) => is_error(r, e) && final(target)@ == old(target)@.with_children(
                body_fail(spans_view(toks@), at as int, kind, old(target)@.children(), old(stack)@).0,
            ) && final(stack)@ == body_fail(
                spans_view(toks@),
                at as int,
                kind,
                old(target)@.children(),
                old(stack)@,
            ).1,
        },
    decreases toks.len() - at, if kind is Sequence { 2int } else { 0int },
{
    let ghost ts = spans_view(toks@);
    let ghost first = at;
    let mut cur = at;
    while cur < toks.len()
        invariant
            first == at,
            first <= cur <= toks.len(),
            ts == spans_view(toks@),
            target@.has_children(),
            target@ == old(target)@.with_children(target@.children()),
            body_at(ts, cur as int, kind, target@.children(), stack@) == body_at(
                ts,
                first as int,
                kind,
                old(target)@.children(),
                old(stack)@,
            ),
            body_fail(ts, cur as int, kind, target@.children(), stack@) == body_fail(
                ts,
                first as int,
                kind,
                old(target)@.children(),
                old(stack)@,
            ),
        decreases toks.len() - cur,
    {
        let span = toks[cur];
        let pos = span.start;
        assert(ts[cur as int] == span@);
        assert(ts[cur as int].token == span.token@);
        assert(ts[cur as int].start == pos);
        match span.token {
            Token::SeqKw => {
                return Err(Error::at(pos, "cannot nest a sequence definition"));
            },
            Token::SolKw => {
                return Err(Error::at(pos, "use of restricted keyword 'sol'"));
            },
            Token::TalKw => {
                let msg = joined("cannot invoke 'tal' inside ", kind.name());
                return Err(Error::at(pos, msg.as_str()));
            },
            Token::NadKw => {
                let msg = joined("cannot invoke 'nad' inside ", kind.name());
                return Err(Error::at(pos, msg.as_str()));
            },
            Token::Literal(s) => {
                let mut msg = joined("cannot call '", s);
                msg.append("' inside ");
                msg.append(kind.name());
                return Err(Error::at(pos, msg.as_str()));
            },
            Token::Figure(u) => {
                target.insert_node(ASTNode::Figure(u));
                cur = cur + 1;
            },
            Token::SeqStart => {
                return Err(Error::at(pos, "unexpected '{' (anonymous sequence)"));
            },
            Token::SeqEnd => match kind {
                BodyKind::Sequence => {
                    if stack.match_last(&Frame::Sequence) {
                        stack.pop_last();
                        return Ok(cur + 1);
                    } else {
                        return Err(Error::at(pos, "unmatched '}'"));
                    }
                },
                BodyKind::Gap => {
                    return Err(Error::at(pos, "unopened sequence block"));
                },
            },
            Token::GapStart => match kind {
                BodyKind::Sequence => {
                    proof {
                        lemma_gap_bounds(ts, cur as int, stack@);
                    }
                    match parse_gap(toks, cur, stack) {
                        Ok((n, k)) => {
                            target.insert_node(n);
                            cur = k;
                        },
                        Err(e) => {
                            return Err(e);
                        },
                    }
                },
                BodyKind::Gap => {
                    return Err(Error::at(pos, "cannot nest gaps"));
                },
            },
            Token::GapEnd => match kind {
                BodyKind::Gap => {
                    if stack.match_last(&Frame::Gap) {
                        stack.pop_last();
                        return Ok(cur + 1);
                    } else {
                        return Err(Error::at(pos, "unmatched ')'"));
                    }
                },
                BodyKind::Sequence => {
                    return Err(Error::at(pos, "unexpected ')' (no matching gap)"));
                },
            },
        }
    }
    Ok(cur)
}

/// Reads a gap from token `at` (its `(`); gives the gap and the index after it.
fn parse_gap<'a>(toks: &Vec<Span<'a>>, at: usize, stack: &mut FrameStack) -> (r: Result<
    (ASTNode<'a>, usize),
    Error,
>)
    requires
        at <= toks.len(),
    ensures
        match gap_at(spans_view(toks@), at as int, old(stack)@) {
            Ok((g, k, st)) => r matches Ok((n, k2)) && n@ == AstV::Gap(g) && k2 == k && final(stack)@
                == st,
            Err(e) => is_error(r, e) && final(stack)@ == gap_fail(spans_view(toks@), at as int, old(stack)@),
        },
    decreases toks.len() - at, 1int,
{
    let mut ret = ASTNode::Gap(Vec::new());
    if at >= toks.len() {
        return Err(Error::eof("expected '(' to start a gap"));
    }
    let sp1 = toks[at];
    assert(spans_view(toks@)[at as int] == sp1@);
    match sp1.token {
        Token::GapStart => {
            stack.add_frame(Frame::Gap);
        },
        other => {
            let msg = joined("expected '(' to start a gap, found ", other.to_text().as_str());
            return Err(Error::at(sp1.start, msg.as_str()));
        },
    }
    assert(ret@ =~= AstV::Gap(Seq::empty()));
    match parse_body(toks, at + 1, stack, BodyKind::Gap, &mut ret) {
        Ok(k) => Ok((ret, k)),
        Err(e) => Err(e),
    }
}


/// Reads a sequence definition from token `at` (its name); gives it and the index after it.
fn parse_seq<'a>(toks: &Vec<Span<'a>>, at: usize, stack: &mut FrameStack) -> (r: Result<
    (ASTNode<'a>, usize),
    Error,
>)
    requires
        at <= toks.len(),
    ensures
        match seq_at(spans_view(toks@), at as int, old(stack)@) {
            Ok((name, c, k, st)) => r matches Ok((n, k2)) && n@ == AstV::Sequence(name, c) && k2 == k
                && final(stack)@ == st,
            Err(e) => is_error(r, e) && final(stack)@ == seq_fail(spans_view(toks@), at as int, old(stack)@),
        },
{
    let name = match parse_ident(toks, at) {
        Ok((name, _)) => name,
        Err(e) => {
            return Err(e);
        },
    };
    let mut ret = ASTNode::Sequence(name, Vec::new());
    assert(ret@ =~= AstV::Sequence(name@, Seq::empty()));
    if at + 1 >= toks.len() {
        return Err(Error::eof("expected '{' after sequence name"));
    }
    let sp1 = toks[at + 1];
    assert(spans_view(toks@)[at + 1] == sp1@);
    match sp1.token {
        Token::SeqStart => {
            stack.add_frame(Frame::Sequence);
        },
        other => {
            let msg = joined("expected '{' after sequence name, found ", other.to_text().as_str());
            return Err(Error::at(sp1.start, msg.as_str()));
        },
    }
    match parse_body(toks, at + 2, stack, BodyKind::Sequence, &mut ret) {
        Ok(k) => Ok((ret, k)),
        Err(e) => Err(e),
    }
}

/// Adding a node adds an entry if it is a sequence.
pub proof fn lemma_symbol_entries_push(acc: Seq<AstV>, v: AstV)
    ensures
        symbol_entries(acc.push(v)) == match v {
            AstV::Sequence(s, _) => symbol_entries(acc).push((s, acc.len() as usize)),
            _ => symbol_entries(acc),
        },
{
    assert(acc.push(v).drop_last() =~= acc);
}

/// The sequences that a program defines: each name with the index of its definition
/// among the root's children.
#[derive(Debug)]
pub struct SymbolTable<'a> {
    table: Vec<(&'a str, usize)>,
}

impl<'a> SymbolTable<'a> {
    /// The entries, in the order of definition.
    pub closed spec fn entries(&self) -> Seq<(Seq<char>, usize)> {
        table_view(self.table@)
    }

    /// An empty table.
    pub fn new() -> (r: Self)
        ensures
            r.entries() == Seq::<(Seq<char>, usize)>::empty(),
    {
        let r = Self { table: Vec::new() };
        assert(r.entries() =~= Seq::<(Seq<char>, usize)>::empty());
        r
    }

    fn find(&self, k: &str) -> (r: Option<usize>)
        ensures
            r == index_of(self.entries(), k@),
    {
        let ghost es = self.entries();
        let mut i: usize = 0;
        assert(es.subrange(0, es.len() as int) =~= es);
        while i < self.table.len()
            invariant
                i <= self.table.len(),
                es == self.entries(),
                es.len() == self.table.len(),
                index_of(es, k@) == index_of(es.subrange(i as int, es.len() as int), k@),
            decreases self.table.len() - i,
        {
            let (name, idx) = self.table[i];
            assert(es.subrange(i as int, es.len() as int)[0] == (name@, idx));
            assert(es.subrange(i as int, es.len() as int).drop_first() =~= es.subrange(
                i + 1,
                es.len() as int,
            ));
            if same_text(name, k) {
                return Some(idx);
            }
            i = i + 1;
        }
        assert(es.subrange(i as int, es.len() as int) =~= Seq::<(Seq<char>, usize)>::empty());
        None
    }

    /// Records that the sequence `k`, defined at byte offset `pos`, is child `idx` of the
    /// root; a name already there is an error.
    pub fn insert(&mut self, k: &'a str, idx: usize, pos: usize) -> (r: Result<(), Error>)
        ensures
            index_of(old(self).entries(), k@) is Some ==> is_error(
                r,
                err_at(pos as int, "sequence redefined: "@ + k@),
            ) && final(self).entries() == old(self).entries(),
            index_of(old(self).entries(), k@) is None ==> r is Ok && final(self).entries() == old(
                self,
            ).entries().push((k@, idx)),
    {
        if self.find(k).is_some() {
            let msg = joined("sequence redefined: ", k);
            return Err(Error::at(pos, msg.as_str()));
        }
        let ghost before = self.table@;
        self.table.push((k, idx));
        assert(table_view(self.table@) =~= table_view(before).push((k@, idx)));
        Ok(())
    }

    /// The index of the definition of the sequence `k`.
    pub fn get(&self, k: &'a str) -> (r: Result<usize, Error>)
        ensures
            match index_of(self.entries(), k@) {
                Some(i) => r == Ok::<usize, Error>(i),
                None => is_error(r, ErrorV { pos: None, msg: "undefined sequence: "@ + k@ }),
            },
    {
        match self.find(k) {
            Some(i) => Ok(i),
            None => {
                let msg = joined("undefined sequence: ", k);
                Err(Error::global(msg.as_str()))
            },
        }
    }
}

/// Parses the tokens that `tokenizer` hands out into a program.
pub fn parse<'p>(tokenizer: Tokenizer<'p>) -> (r: Result<Program<'p>, Error>)
    ensures
        match parse_tokens(lex_from(tokenizer.text(), tokenizer.position())) {
            Ok(p) => r matches Ok(x) && x@ == p,
            Err(e) => is_error(r, e),
        },
{
    let toks = tokenizer.spans();
    let ghost ts = spans_view(toks@);
    let mut stack = FrameStack { stack: Vec::new() };
    let mut tree = ASTNode::Root(Vec::new());
    let mut sym_table = SymbolTable::new();
    assert(tree@ =~= AstV::Root(Seq::empty()));
    if toks.len() == 0 {
        return Err(Error::at(0, "Expected tal decl at beginning of file"));
    }
    let tal_set = toks[0];
    assert(ts[0] == tal_set@);
    let u: usize;
    let mut at: usize;
    match tal_set.token {
        Token::TalKw => {
            match parse_tal(&toks, 1) {
                Ok((n, k_u, k)) => {
                    tree.insert_node(n);
                    u = k_u;
                    at = k;
                },
                Err(e) => {
                    return Err(e);
                },
            }
        },
        _ => {
            return Err(Error::at(tal_set.start, "Expected tal decl at beginning of file"));
        },
    }
    tree.insert_node(ASTNode::Nad(4));
    let ghost start = at;
    assert(tree@.children() =~= seq![AstV::Tal(u), AstV::Nad(4)]);
    assert(stack@ =~= Seq::<Frame>::empty());
    assert(sym_table.entries() =~= symbol_entries(tree@.children())) by {
        lemma_symbol_entries_push(Seq::empty(), AstV::Tal(u));
        lemma_symbol_entries_push(seq![AstV::Tal(u)], AstV::Nad(4));
        assert(Seq::<AstV>::empty().push(AstV::Tal(u)) =~= seq![AstV::Tal(u)]);
        assert(seq![AstV::Tal(u)].push(AstV::Nad(4)) =~= seq![AstV::Tal(u), AstV::Nad(4)]);
        assert(symbol_entries(Seq::<AstV>::empty()) =~= Seq::<(Seq<char>, usize)>::empty());
    }
    assert(parse_tokens(ts) == match top_at(ts, start as int, seq![AstV::Tal(u), AstV::Nad(4)], Seq::empty()) {
        Ok(c) => Ok(ProgramV { root: AstV::Root(c), tal: u, symbols: symbol_entries(c) }),
        Err(e) => Err(e),
    });
    while at < toks.len()
        invariant
            ts == spans_view(toks@),
            ts == lex_from(tokenizer.text(), tokenizer.position()),
            parse_tokens(ts) == match top_at(ts, start as int, seq![AstV::Tal(u), AstV::Nad(4)], Seq::empty()) {
                Ok(c) => Ok(ProgramV { root: AstV::Root(c), tal: u, symbols: symbol_entries(c) }),
                Err(e) => Err(e),
            },
            start <= at <= toks.len(),
            tree@ is Root,
            sym_table.entries() == symbol_entries(tree@.children()),
            top_at(ts, at as int, tree@.children(), stack@) == top_at(
                ts,
                start as int,
                seq![AstV::Tal(u), AstV::Nad(4)],
                Seq::empty(),
            ),
        decreases toks.len() - at,
    {
        let span = toks[at];
        let pos = span.start;
        assert(ts[at as int] == span@);
        assert(ts[at as int].token == span.token@);
        assert(ts[at as int].start == pos);
        let ghost acc = tree@.children();
        match span.token {
            Token::SeqKw => {
                proof {
                    lemma_seq_bounds(ts, at + 1, stack@);
                }
                match parse_seq(&toks, at + 1, &mut stack) {
                    Ok((n, k)) => {
                        let id = n.get_name();
                        let ghost nv = n@;
                        let idx = tree.insert_node(n);
                        match sym_table.insert(id, idx, pos) {
                            Ok(()) => {},
                            Err(e) => {
                                return Err(e);
                            },
                        }
                        proof {
                            lemma_symbol_entries_push(acc, nv);
                        }
                        at = k;
                    },
                    Err(e) => {
                        return Err(e);
                    },
                }
            },
            Token::SolKw => {
                return Err(Error::at(pos, "use of restricted keyword 'sol'"));
            },
            Token::TalKw => {
                match parse_tal(&toks, at + 1) {
                    Ok((n, _, k)) => {
                        let ghost nv = n@;
                        tree.insert_node(n);
                        proof {
                            lemma_symbol_entries_push(acc, nv);
                        }
                        at = k;
                    },
                    Err(e) => {
                        return Err(e);
                    },
                }
            },
            Token::NadKw => {
                match parse_nad(&toks, at + 1) {
                    Ok((n, k)) => {
                        let ghost nv = n@;
                        tree.insert_node(n);
                        proof {
                            lemma_symbol_entries_push(acc, nv);
                        }
                        at = k;
                    },
                    Err(e) => {
                        return Err(e);
                    },
                }
            },
            Token::Literal(s) => {
                let n = ASTNode::FnCall(s);
                let ghost nv = n@;
                tree.insert_node(n);
                proof {
                    lemma_symbol_entries_push(acc, nv);
                }
                at = at + 1;
            },
            Token::Figure(u) => {
                let n = ASTNode::Figure(u);
                let ghost nv = n@;
                tree.insert_node(n);
                proof {
                    lemma_symbol_entries_push(acc, nv);
                }
                at = at + 1;
            },
            Token::SeqStart => {
                return Err(Error::at(pos, "unexpected '{' (anonymous sequence)"));
            },
            Token::SeqEnd => {
                return Err(Error::at(pos, "unexpected '}' (no matching sequence)"));
            },
            Token::GapStart => {
                proof {
                    lemma_gap_bounds(ts, at as int, stack@);
                }
                match parse_gap(&toks, at, &mut stack) {
                    Ok((n, k)) => {
                        let ghost nv = n@;
                        tree.insert_node(n);
                        proof {
                            lemma_symbol_entries_push(acc, nv);
                        }
                        at = k;
                    },
                    Err(e) => {
                        return Err(e);
                    },
                }
            },
            Token::GapEnd => {
                return Err(Error::at(pos, "unexpected ')' (no matching gap)"));
            },
        }
    }
    Ok(Program::new(tree, u, sym_table))
}

} // verus!
