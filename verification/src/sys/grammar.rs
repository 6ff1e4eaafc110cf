//! The shape of the programs that the parser accepts.
//!
//! A gap holds figures only; a sequence holds figures and gaps; the top level holds
//! `tal` and `nad` declarations, figures, calls, gaps and sequence definitions, no two
//! definitions with one name. A parsed program starts with its `tal` and nadai 4, and
//! its table of sequences points at their definitions, in order.
use vstd::prelude::*;
use crate::parse::index_of;
use crate::sys::ast::AstV;
use crate::sys::parser::{body_at, gap_at, parse_tokens, seq_at, symbol_entries, top_at, BodyKind, Frame};
use crate::sys::parser::{lemma_gap_bounds, lemma_seq_bounds, lemma_symbol_entries_push};
use crate::tokenize::SpanV;

verus! {

/// Nothing but figures.
pub open spec fn figures_only(c: Seq<AstV>) -> bool {
    forall|i: int| 0 <= i < c.len() ==> #[trigger] c[i] is Figure
}

/// Figures, and gaps of figures.
pub open spec fn sequence_body(c: Seq<AstV>) -> bool {
    forall|i: int|
        0 <= i < c.len() ==> #[trigger] c[i] is Figure || (c[i] is Gap && figures_only(c[i].children()))
}

/// What a body of the kind `kind` may hold.
pub open spec fn body_shape(kind: BodyKind, c: Seq<AstV>) -> bool {
    match kind {
        BodyKind::Sequence => sequence_body(c),
        BodyKind::Gap => figures_only(c),
    }
}

/// A node that may stand at the top level of a program.
pub open spec fn top_node(n: AstV) -> bool {
    match n {
        AstV::Tal(_) => true,
        AstV::Nad(_) => true,
        AstV::FnCall(_) => true,
        AstV::Figure(_) => true,
        AstV::Sequence(_, c) => sequence_body(c),
        AstV::Gap(c) => figures_only(c),
        _ => false,
    }
}

/// No two sequence definitions among `c` share a name.
pub open spec fn distinct_definitions(c: Seq<AstV>) -> bool {
    forall|a: int, b: int|
        0 <= a < b < c.len() && #[trigger] c[a] is Sequence && #[trigger] c[b] is Sequence
            ==> c[a]->Sequence_0 != c[b]->Sequence_0
}

/// The top level of a program as the grammar admits it.
pub open spec fn top_level(c: Seq<AstV>) -> bool {
    &&& forall|i: int| 0 <= i < c.len() ==> top_node(#[trigger] c[i])
    &&& distinct_definitions(c)
}

/// The entries `es` point, in increasing order, at the sequence definitions of `c` that
/// bear their names, and at each of them.
pub open spec fn entries_point_at(es: Seq<(Seq<char>, usize)>, c: Seq<AstV>) -> bool {
    &&& forall|a: int|
        0 <= a < es.len() ==> (#[trigger] es[a]).1 < c.len() && c[es[a].1 as int] is Sequence
            && c[es[a].1 as int]->Sequence_0 == es[a].0
    &&& forall|a: int, b: int| 0 <= a < b < es.len() ==> (#[trigger] es[a]).1 < (#[trigger] es[b]).1
    &&& forall|j: int|
        0 <= j < c.len() && (#[trigger] c[j]) is Sequence ==> exists|a: int|
            0 <= a < es.len() && #[trigger] es[a].1 == j
}

/// A body read from `i` holds what its kind admits, if what came before did.
proof fn lemma_body_shape(ts: Seq<SpanV>, i: int, kind: BodyKind, acc: Seq<AstV>, stack: Seq<Frame>)
    requires
        body_shape(kind, acc),
    ensures
        body_at(ts, i, kind, acc, stack) matches Ok((c, _, _)) ==> body_shape(kind, c),
    decreases ts.len() - i, if kind is Sequence { 2int } else { 0int },
{
    if 0 <= i < ts.len() {
        match ts[i].token {
            crate::tokenize::TokenV::Figure(u) => {
                let next = acc.push(AstV::Figure(u));
                assert(next[next.len() - 1] is Figure);
                assert(body_shape(kind, next)) by {
                    assert forall|j: int| 0 <= j < next.len() implies #[trigger] next[j] == if j < acc.len() {
                        acc[j]
                    } else {
                        AstV::Figure(u)
                    } by {}
                }
                lemma_body_shape(ts, i + 1, kind, next, stack);
            },
            crate::tokenize::TokenV::GapStart => {
                if kind is Sequence {
                    lemma_gap_shape(ts, i, stack);
                    if let Ok((g, k, st)) = gap_at(ts, i, stack) {
                        if i < k <= ts.len() {
                            let next = acc.push(AstV::Gap(g));
                            assert(body_shape(kind, next)) by {
                                assert forall|j: int| 0 <= j < next.len() implies #[trigger] next[j] == if j
                                    < acc.len() {
                                    acc[j]
                                } else {
                                    AstV::Gap(g)
                                } by {}
                                assert(AstV::Gap(g).children() == g);
                            }
                            lemma_body_shape(ts, k, kind, next, st);
                        }
                    }
                }
            },
            _ => {},
        }
    }
}

/// A gap read from `i` holds figures only.
proof fn lemma_gap_shape(ts: Seq<SpanV>, i: int, stack: Seq<Frame>)
    ensures
        gap_at(ts, i, stack) matches Ok((g, _, _)) ==> figures_only(g),
    decreases ts.len() - i, 1int,
{
    if 0 <= i < ts.len() {
        lemma_body_shape(ts, i + 1, BodyKind::Gap, Seq::empty(), stack.push(Frame::Gap));
    }
}

/// A sequence definition read from `i` holds figures and gaps of figures.
proof fn lemma_seq_shape(ts: Seq<SpanV>, i: int, stack: Seq<Frame>)
    ensures
        seq_at(ts, i, stack) matches Ok((_, c, _, _)) ==> sequence_body(c),
{
    lemma_body_shape(ts, i + 2, BodyKind::Sequence, Seq::empty(), stack.push(Frame::Sequence));
}

/// A name with no entry is the name of no definition among `c`.
proof fn lemma_no_entry_no_definition(c: Seq<AstV>, name: Seq<char>)
    requires
        c.len() <= usize::MAX,
        index_of(symbol_entries(c), name) is None,
    ensures
        forall|j: int| 0 <= j < c.len() && #[trigger] c[j] is Sequence ==> c[j]->Sequence_0 != name,
{
    lemma_entries_point_at(c);
    let es = symbol_entries(c);
    assert forall|j: int| 0 <= j < c.len() && #[trigger] c[j] is Sequence implies c[j]->Sequence_0
        != name by {
        let a = choose|a: int| 0 <= a < es.len() && #[trigger] es[a].1 == j;
        lemma_index_of_finds(es, a);
    }
}

/// A table has an entry for the name of each of its entries.
proof fn lemma_index_of_finds(es: Seq<(Seq<char>, usize)>, a: int)
    requires
        0 <= a < es.len(),
    ensures
        index_of(es, es[a].0) is Some,
    decreases es.len(),
{
    if a > 0 && es[0].0 != es[a].0 {
        assert(es.drop_first()[a - 1] == es[a]);
        lemma_index_of_finds(es.drop_first(), a - 1);
    }
}

/// The entries of the definitions among `c` point at them.
pub proof fn lemma_entries_point_at(c: Seq<AstV>)
    requires
        c.len() <= usize::MAX,
    ensures
        entries_point_at(symbol_entries(c), c),
    decreases c.len(),
{
    if c.len() > 0 {
        let rest = c.drop_last();
        lemma_entries_point_at(rest);
        lemma_symbol_entries_push(rest, c.last());
        assert(rest.push(c.last()) =~= c);
        let es = symbol_entries(c);
        let er = symbol_entries(rest);
        assert forall|j: int| 0 <= j < c.len() && (#[trigger] c[j]) is Sequence implies exists|a: int|
            0 <= a < es.len() && #[trigger] es[a].1 == j by {
            if j < rest.len() {
                assert(rest[j] == c[j]);
                let a = choose|a: int| 0 <= a < er.len() && #[trigger] er[a].1 == j;
                assert(es[a] == er[a]);
            } else {
                assert(c[j] == c.last());
                assert(es == er.push((c.last()->Sequence_0, rest.len() as usize)));
                assert(es[er.len() as int].1 == j);
            }
        }
        assert forall|a: int| 0 <= a < es.len() implies (#[trigger] es[a]).1 < c.len()
            && c[es[a].1 as int] is Sequence && c[es[a].1 as int]->Sequence_0 == es[a].0 by {
            if a < er.len() {
                assert(es[a] == er[a]);
                assert(c[er[a].1 as int] == rest[er[a].1 as int]);
            }
        }
        assert forall|a: int, b: int| 0 <= a < b < es.len() implies (#[trigger] es[a]).1 < (
        #[trigger] es[b]).1 by {
            assert(es[a] == er[a]);
            if b < er.len() {
                assert(es[b] == er[b]);
            }
        }
    }
}

/// Adding a well-formed node whose name, if it is a definition, is not yet defined keeps
/// the top level well formed.
proof fn lemma_top_level_push(acc: Seq<AstV>, n: AstV)
    requires
        acc.len() <= usize::MAX,
        top_level(acc),
        top_node(n),
        n is Sequence ==> index_of(symbol_entries(acc), n->Sequence_0) is None,
    ensures
        top_level(acc.push(n)),
{
    let next = acc.push(n);
    if n is Sequence {
        lemma_no_entry_no_definition(acc, n->Sequence_0);
    }
    assert forall|i: int| 0 <= i < next.len() implies top_node(#[trigger] next[i]) by {
        if i < acc.len() {
            assert(next[i] == acc[i]);
        }
    }
    assert forall|a: int, b: int|
        0 <= a < b < next.len() && #[trigger] next[a] is Sequence && #[trigger] next[b] is Sequence
            implies next[a]->Sequence_0 != next[b]->Sequence_0 by {
        assert(next[a] == acc[a]);
        if b < acc.len() {
            assert(next[b] == acc[b]);
        }
    }
}

/// The top level read from `i` extends what came before and stays well formed.
proof fn lemma_top_shape(ts: Seq<SpanV>, i: int, acc: Seq<AstV>, stack: Seq<Frame>)
    requires
        top_level(acc),
        0 <= i <= ts.len(),
        acc.len() + ts.len() - i <= usize::MAX,
    ensures
        top_at(ts, i, acc, stack) matches Ok(c) ==> top_level(c) && acc.len() <= c.len() && c.take(
            acc.len() as int,
        ) == acc && c.len() <= acc.len() + ts.len() - i,
    decreases ts.len() - i,
{
    if i < ts.len() {
        match ts[i].token {
            crate::tokenize::TokenV::SeqKw => {
                lemma_seq_shape(ts, i + 1, stack);
                lemma_seq_bounds(ts, i + 1, stack);
                if let Ok((name, c, k, st)) = seq_at(ts, i + 1, stack) {
                    if index_of(symbol_entries(acc), name) is None && i < k <= ts.len() {
                        lemma_top_level_push(acc, AstV::Sequence(name, c));
                        lemma_top_shape(ts, k, acc.push(AstV::Sequence(name, c)), st);
                        lemma_take_push(acc, AstV::Sequence(name, c), top_at(ts, i, acc, stack));
                    }
                }
            },
            crate::tokenize::TokenV::TalKw => {
                if let Ok((u, k)) = crate::sys::parser::figure_at(ts, i + 1) {
                    lemma_top_level_push(acc, AstV::Tal(u));
                    lemma_top_shape(ts, k, acc.push(AstV::Tal(u)), stack);
                    lemma_take_push(acc, AstV::Tal(u), top_at(ts, i, acc, stack));
                }
            },
            crate::tokenize::TokenV::NadKw => {
                if let Ok((u, k)) = crate::sys::parser::figure_at(ts, i + 1) {
                    lemma_top_level_push(acc, AstV::Nad(u));
                    lemma_top_shape(ts, k, acc.push(AstV::Nad(u)), stack);
                    lemma_take_push(acc, AstV::Nad(u), top_at(ts, i, acc, stack));
                }
            },
            crate::tokenize::TokenV::Literal(s) => {
                lemma_top_level_push(acc, AstV::FnCall(s));
                lemma_top_shape(ts, i + 1, acc.push(AstV::FnCall(s)), stack);
                lemma_take_push(acc, AstV::FnCall(s), top_at(ts, i, acc, stack));
            },
            crate::tokenize::TokenV::Figure(u) => {
                lemma_top_level_push(acc, AstV::Figure(u));
                lemma_top_shape(ts, i + 1, acc.push(AstV::Figure(u)), stack);
                lemma_take_push(acc, AstV::Figure(u), top_at(ts, i, acc, stack));
            },
            crate::tokenize::TokenV::GapStart => {
                lemma_gap_shape(ts, i, stack);
                lemma_gap_bounds(ts, i, stack);
                if let Ok((g, k, st)) = gap_at(ts, i, stack) {
                    if i < k <= ts.len() {
                        lemma_top_level_push(acc, AstV::Gap(g));
                        lemma_top_shape(ts, k, acc.push(AstV::Gap(g)), st);
                        lemma_take_push(acc, AstV::Gap(g), top_at(ts, i, acc, stack));
                    }
                }
            },
            _ => {},
        }
    }
}

/// What extends `acc.push(n)` extends `acc`.
proof fn lemma_take_push(acc: Seq<AstV>, n: AstV, r: Result<Seq<AstV>, crate::sys::warnings::ErrorV>)
    ensures
        (r matches Ok(c) && acc.len() + 1 <= c.len() && c.take(acc.len() + 1int) == acc.push(n)) ==> (r matches Ok(
            c,
        ) && c.take(acc.len() as int) == acc),
{
    if let Ok(c) = r {
        if acc.len() + 1 <= c.len() && c.take(acc.len() + 1int) == acc.push(n) {
            assert(c.take(acc.len() as int) =~= c.take(acc.len() + 1int).take(acc.len() as int));
            assert(acc.push(n).take(acc.len() as int) =~= acc);
        }
    }
}

/// A program that parses starts with its `tal` and nadai 4; its top level, its
/// sequences and its gaps hold only what the grammar admits; no two sequences share a
/// name; and its table of sequences points, in order, at each definition by its name.
pub proof fn law_parsed_program_shape(ts: Seq<SpanV>)
    requires
        ts.len() <= usize::MAX,
    ensures
        parse_tokens(ts) matches Ok(p) ==> {
            &&& p.root is Root
            &&& p.root.children().len() >= 2
            &&& p.root.children()[0] == AstV::Tal(p.tal)
            &&& p.root.children()[1] == AstV::Nad(4)
            &&& top_level(p.root.children())
            &&& entries_point_at(p.symbols, p.root.children())
            &&& forall|a: int, b: int|
                0 <= a < b < p.symbols.len() ==> (#[trigger] p.symbols[a]).0 != (#[trigger] p.symbols[b]).0
        },
{
    if let Ok(p) = parse_tokens(ts) {
        if let Ok((u, k)) = crate::sys::parser::figure_at(ts, 1) {
            let start = seq![AstV::Tal(u), AstV::Nad(4)];
            assert(top_level(start)) by {
                assert forall|i: int| 0 <= i < start.len() implies top_node(#[trigger] start[i]) by {}
            }
            lemma_top_shape(ts, k, start, Seq::empty());
            let c = p.root.children();
            assert(c.take(2) == start);
            assert(c[0] == c.take(2)[0]);
            assert(c[1] == c.take(2)[1]);
            lemma_entries_point_at(c);
            let es = p.symbols;
            assert forall|a: int, b: int| 0 <= a < b < es.len() implies (#[trigger] es[a]).0 != (
            #[trigger] es[b]).0 by {
                let x = es[a].1 as int;
                let y = es[b].1 as int;
                assert(c[x] is Sequence && c[y] is Sequence && x < y);
            }
        }
    }
}

} // verus!
