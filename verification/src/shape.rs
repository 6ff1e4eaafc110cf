//! The shape of the trees that the parsers of the first two languages accept.
//!
//! A gap holds figures only; a sequence holds figures and gaps; the root holds calls,
//! figures, gaps and sequence definitions (and, in the second language, `tal` and `nad`
//! declarations). The table of sequences that a parse gives names each definition once,
//! in order, with the index of its node among the root's children.
use vstd::prelude::*;
use crate::ast::{NodeTypeV, NodeV};
use crate::parse::index_of;
use crate::tokenize::{SpanV, TokenV};

verus! {

/// Figure nodes only.
pub open spec fn figures_only(c: Seq<NodeV>) -> bool {
    forall|i: int| 0 <= i < c.len() ==> (#[trigger] c[i]).node_type is Figure
}

/// A gap node of figures.
pub open spec fn figure_gap(n: NodeV) -> bool {
    &&& n.node_type is Gap
    &&& n.children matches Some(c) && figures_only(c)
}

/// Figures, and gaps of figures.
pub open spec fn sequence_body(c: Seq<NodeV>) -> bool {
    forall|i: int| 0 <= i < c.len() ==> (#[trigger] c[i]).node_type is Figure || figure_gap(c[i])
}

/// A node that may stand among the root's children; `declarations` admits `tal` and
/// `nad` too.
pub open spec fn top_node(n: NodeV, declarations: bool) -> bool {
    match n.node_type {
        NodeTypeV::FnCall(_) => true,
        NodeTypeV::Figure(_) => true,
        NodeTypeV::Gap => figure_gap(n),
        NodeTypeV::Sequence(_) => n.children matches Some(c) && sequence_body(c),
        NodeTypeV::Tal(_) => declarations,
        NodeTypeV::Nad(_) => declarations,
        _ => false,
    }
}

/// The entries `es` name, each once and in increasing order of index, exactly the
/// sequence definitions among `c`.
pub open spec fn entries_point_at(es: Seq<(Seq<char>, usize)>, c: Seq<NodeV>) -> bool {
    &&& forall|a: int|
        0 <= a < es.len() ==> (#[trigger] es[a]).1 < c.len() && c[es[a].1 as int].node_type
            == NodeTypeV::Sequence(es[a].0)
    &&& forall|a: int, b: int| 0 <= a < b < es.len() ==> (#[trigger] es[a]).1 < (#[trigger] es[b]).1
    &&& forall|a: int, b: int| 0 <= a < b < es.len() ==> (#[trigger] es[a]).0 != (#[trigger] es[b]).0
    &&& forall|j: int|
        0 <= j < c.len() && (#[trigger] c[j]).node_type is Sequence ==> exists|a: int|
            0 <= a < es.len() && #[trigger] es[a].1 == j
}

/// A tree root as a parser of these languages gives it.
pub open spec fn parsed_tree(root: NodeV, names: Seq<(Seq<char>, usize)>, declarations: bool) -> bool {
    &&& root.node_type is Root
    &&& root.children matches Some(c) && (forall|i: int|
        0 <= i < c.len() ==> top_node(#[trigger] c[i], declarations)) && entries_point_at(names, c)
}

/// A name that `index_of` does not find is the name of no entry.
proof fn lemma_index_of_none(es: Seq<(Seq<char>, usize)>, k: Seq<char>)
    requires
        index_of(es, k) is None,
    ensures
        forall|a: int| 0 <= a < es.len() ==> (#[trigger] es[a]).0 != k,
    decreases es.len(),
{
    if es.len() > 0 {
        lemma_index_of_none(es.drop_first(), k);
        assert forall|a: int| 0 <= a < es.len() implies (#[trigger] es[a]).0 != k by {
            if a > 0 {
                assert(es[a] == es.drop_first()[a - 1]);
            }
        }
    }
}

/// Adding a top-level node keeps the table exact: a definition, named by no entry yet,
/// gets a new last entry.
proof fn lemma_entries_push(es: Seq<(Seq<char>, usize)>, c: Seq<NodeV>, n: NodeV)
    requires
        entries_point_at(es, c),
        c.len() <= usize::MAX,
        n.node_type is Sequence ==> index_of(es, n.node_type->Sequence_0) is None,
    ensures
        entries_point_at(
            if n.node_type is Sequence {
                es.push((n.node_type->Sequence_0, c.len() as usize))
            } else {
                es
            },
            c.push(n),
        ),
{
    let c2 = c.push(n);
    assert forall|j: int| 0 <= j < c.len() implies c2[j] == c[j] by {}
    if n.node_type is Sequence {
        let name = n.node_type->Sequence_0;
        lemma_index_of_none(es, name);
        let es2 = es.push((name, c.len() as usize));
        assert forall|a: int| 0 <= a < es2.len() implies (#[trigger] es2[a]).1 < c2.len() && c2[es2[a].1 as int].node_type
            == NodeTypeV::Sequence(es2[a].0) by {
            if a < es.len() {
                assert(es2[a] == es[a]);
            }
        }
        assert forall|a: int, b: int| 0 <= a < b < es2.len() implies (#[trigger] es2[a]).1 < (
        #[trigger] es2[b]).1 && es2[a].0 != es2[b].0 by {
            assert(es2[a] == es[a]);
            if b < es.len() {
                assert(es2[b] == es[b]);
            }
        }
        assert forall|j: int| 0 <= j < c2.len() && (#[trigger] c2[j]).node_type is Sequence implies exists|a: int|
            0 <= a < es2.len() && #[trigger] es2[a].1 == j by {
            if j < c.len() {
                let a = choose|a: int| 0 <= a < es.len() && #[trigger] es[a].1 == j;
                assert(es2[a] == es[a]);
            } else {
                assert(es2[es.len() as int].1 == j);
            }
        }
    } else {
        assert forall|a: int| 0 <= a < es.len() implies (#[trigger] es[a]).1 < c2.len() && c2[es[a].1 as int].node_type
            == NodeTypeV::Sequence(es[a].0) by {}
        assert forall|j: int| 0 <= j < c2.len() && (#[trigger] c2[j]).node_type is Sequence implies exists|a: int|
            0 <= a < es.len() && #[trigger] es[a].1 == j by {
            if j < c.len() {
                assert(c2[j] == c[j]);
            }
        }
    }
}

/// Adding a node that may stand at the top keeps every node one that may.
proof fn lemma_top_nodes_push(c: Seq<NodeV>, n: NodeV, declarations: bool)
    requires
        forall|i: int| 0 <= i < c.len() ==> top_node(#[trigger] c[i], declarations),
        top_node(n, declarations),
    ensures
        forall|i: int| 0 <= i < c.push(n).len() ==> top_node(#[trigger] c.push(n)[i], declarations),
{
    assert forall|i: int| 0 <= i < c.push(n).len() implies top_node(#[trigger] c.push(n)[i], declarations) by {
        if i < c.len() {
            assert(c.push(n)[i] == c[i]);
        }
    }
}

/// Adding a figure keeps a run of figures one.
proof fn lemma_figures_push(c: Seq<NodeV>, u: usize)
    requires
        figures_only(c),
    ensures
        figures_only(c.push(crate::parse::node(NodeTypeV::Figure(u), Seq::empty()))),
{
    let n = crate::parse::node(NodeTypeV::Figure(u), Seq::empty());
    assert forall|i: int| 0 <= i < c.push(n).len() implies (#[trigger] c.push(n)[i]).node_type is Figure by {
        if i < c.len() {
            assert(c.push(n)[i] == c[i]);
        }
    }
}

/// Adding a figure or a gap of figures keeps a sequence body one.
proof fn lemma_sequence_body_push(c: Seq<NodeV>, n: NodeV)
    requires
        sequence_body(c),
        n.node_type is Figure || figure_gap(n),
    ensures
        sequence_body(c.push(n)),
{
    assert forall|i: int| 0 <= i < c.push(n).len() implies (#[trigger] c.push(n)[i]).node_type is Figure
        || figure_gap(c.push(n)[i]) by {
        if i < c.len() {
            assert(c.push(n)[i] == c[i]);
        }
    }
}

// ---- the first language ----

proof fn lemma_first_gap_body(ts: Seq<SpanV>, i: int, acc: Seq<NodeV>, stack: Seq<crate::parse::Frame>)
    requires
        figures_only(acc),
    ensures
        crate::parse::gap_body(ts, i, acc, stack) matches Ok((c, _, _)) ==> figures_only(c),
    decreases ts.len() - i,
{
    if 0 <= i < ts.len() {
        if let TokenV::Figure(u) = crate::parse::word(ts[i].token) {
            lemma_figures_push(acc, u);
            lemma_first_gap_body(ts, i + 1, acc.push(crate::parse::node(NodeTypeV::Figure(u), Seq::empty())), stack);
        }
    }
}

proof fn lemma_first_gap(ts: Seq<SpanV>, i: int, stack: Seq<crate::parse::Frame>)
    ensures
        crate::parse::gap_at(ts, i, stack) matches Ok((g, _, _)) ==> figure_gap(g),
{
    lemma_first_gap_body(ts, i + 1, Seq::empty(), stack.push(crate::parse::Frame::Gap));
}

proof fn lemma_first_seq_body(ts: Seq<SpanV>, i: int, acc: Seq<NodeV>, stack: Seq<crate::parse::Frame>)
    requires
        sequence_body(acc),
    ensures
        crate::parse::seq_body(ts, i, acc, stack) matches Ok((c, _, _)) ==> sequence_body(c),
    decreases ts.len() - i,
{
    if 0 <= i < ts.len() {
        match crate::parse::word(ts[i].token) {
            TokenV::Figure(u) => {
                let n = crate::parse::node(NodeTypeV::Figure(u), Seq::empty());
                lemma_sequence_body_push(acc, n);
                lemma_first_seq_body(ts, i + 1, acc.push(n), stack);
            },
            TokenV::GapStart => {
                lemma_first_gap(ts, i, stack);
                if let Ok((g, k, st)) = crate::parse::gap_at(ts, i, stack) {
                    if i < k <= ts.len() {
                        lemma_sequence_body_push(acc, g);
                        lemma_first_seq_body(ts, k, acc.push(g), st);
                    }
                }
            },
            _ => {},
        }
    }
}

proof fn lemma_first_seq(ts: Seq<SpanV>, i: int, stack: Seq<crate::parse::Frame>)
    ensures
        crate::parse::seq_at(ts, i, stack) matches Ok((n, _, _)) ==> n.node_type is Sequence
            && top_node(n, false),
{
    lemma_first_seq_body(ts, i + 2, Seq::empty(), stack.push(crate::parse::Frame::Sequence));
}

proof fn lemma_first_top(
    ts: Seq<SpanV>,
    i: int,
    acc: Seq<NodeV>,
    names: Seq<(Seq<char>, usize)>,
    stack: Seq<crate::parse::Frame>,
)
    requires
        0 <= i <= ts.len(),
        acc.len() + ts.len() - i <= usize::MAX,
        forall|j: int| 0 <= j < acc.len() ==> top_node(#[trigger] acc[j], false),
        entries_point_at(names, acc),
    ensures
        crate::parse::top_at(ts, i, acc, names, stack) matches Ok((c, ns)) ==> (forall|j: int|
            0 <= j < c.len() ==> top_node(#[trigger] c[j], false)) && entries_point_at(ns, c),
    decreases ts.len() - i,
{
    if i < ts.len() {
        match crate::parse::word(ts[i].token) {
            TokenV::SeqKw => {
                lemma_first_seq(ts, i + 1, stack);
                crate::parse::lemma_seq_bounds(ts, i + 1, stack);
                if let Ok((n, k, st)) = crate::parse::seq_at(ts, i + 1, stack) {
                    let name = n.node_type->Sequence_0;
                    if index_of(names, name) is None && i < k <= ts.len() {
                        lemma_top_nodes_push(acc, n, false);
                        lemma_entries_push(names, acc, n);
                        lemma_first_top(ts, k, acc.push(n), names.push((name, acc.len() as usize)), st);
                    }
                }
            },
            TokenV::Literal(s) => {
                let n = crate::parse::node(NodeTypeV::FnCall(s), Seq::empty());
                lemma_top_nodes_push(acc, n, false);
                lemma_entries_push(names, acc, n);
                lemma_first_top(ts, i + 1, acc.push(n), names, stack);
            },
            TokenV::Figure(u) => {
                let n = crate::parse::node(NodeTypeV::Figure(u), Seq::empty());
                lemma_top_nodes_push(acc, n, false);
                lemma_entries_push(names, acc, n);
                lemma_first_top(ts, i + 1, acc.push(n), names, stack);
            },
            TokenV::GapStart => {
                lemma_first_gap(ts, i, stack);
                crate::parse::lemma_gap_bounds(ts, i, stack);
                if let Ok((g, k, st)) = crate::parse::gap_at(ts, i, stack) {
                    if i < k <= ts.len() {
                        lemma_top_nodes_push(acc, g, false);
                        lemma_entries_push(names, acc, g);
                        lemma_first_top(ts, k, acc.push(g), names, st);
                    }
                }
            },
            _ => {},
        }
    }
}

/// A tree that the first language's parser gives has a root of calls, figures, gaps of
/// figures and sequences of figures and gaps, and a table that names each of its
/// sequences once, in order, with the index of its node.
pub proof fn law_first_parse_shape(ts: Seq<SpanV>)
    requires
        ts.len() <= usize::MAX,
    ensures
        crate::parse::parse_tokens(ts) matches Ok((root, names)) ==> parsed_tree(root, names, false),
{
    assert(entries_point_at(Seq::empty(), Seq::empty()));
    lemma_first_top(ts, 0, Seq::empty(), Seq::empty(), Seq::empty());
}

// ---- the second language ----

proof fn lemma_second_gap_body(ts: Seq<SpanV>, i: int, acc: Seq<NodeV>, stack: Seq<crate::parser::Frame>)
    requires
        figures_only(acc),
    ensures
        crate::parser::gap_body(ts, i, acc, stack) matches Ok((c, _, _)) ==> figures_only(c),
    decreases ts.len() - i,
{
    if 0 <= i < ts.len() {
        if let TokenV::Figure(u) = ts[i].token {
            lemma_figures_push(acc, u);
            lemma_second_gap_body(ts, i + 1, acc.push(crate::parse::node(NodeTypeV::Figure(u), Seq::empty())), stack);
        }
    }
}

proof fn lemma_second_gap(ts: Seq<SpanV>, i: int, stack: Seq<crate::parser::Frame>)
    ensures
        crate::parser::gap_at(ts, i, stack) matches Ok((g, _, _)) ==> figure_gap(g),
{
    lemma_second_gap_body(ts, i + 1, Seq::empty(), stack.push(crate::parser::Frame::Gap));
}

proof fn lemma_second_seq_body(ts: Seq<SpanV>, i: int, acc: Seq<NodeV>, stack: Seq<crate::parser::Frame>)
    requires
        sequence_body(acc),
    ensures
        crate::parser::seq_body(ts, i, acc, stack) matches Ok((c, _, _)) ==> sequence_body(c),
    decreases ts.len() - i,
{
    if 0 <= i < ts.len() {
        match ts[i].token {
            TokenV::Figure(u) => {
                let n = crate::parse::node(NodeTypeV::Figure(u), Seq::empty());
                lemma_sequence_body_push(acc, n);
                lemma_second_seq_body(ts, i + 1, acc.push(n), stack);
            },
            TokenV::GapStart => {
                lemma_second_gap(ts, i, stack);
                if let Ok((g, k, st)) = crate::parser::gap_at(ts, i, stack) {
                    if i < k <= ts.len() {
                        lemma_sequence_body_push(acc, g);
                        lemma_second_seq_body(ts, k, acc.push(g), st);
                    }
                }
            },
            _ => {},
        }
    }
}

proof fn lemma_second_seq(ts: Seq<SpanV>, i: int, stack: Seq<crate::parser::Frame>)
    ensures
        crate::parser::seq_at(ts, i, stack) matches Ok((n, _, _)) ==> n.node_type is Sequence
            && top_node(n, true),
{
    lemma_second_seq_body(ts, i + 2, Seq::empty(), stack.push(crate::parser::Frame::Sequence));
}

proof fn lemma_second_top(
    ts: Seq<SpanV>,
    i: int,
    acc: Seq<NodeV>,
    names: Seq<(Seq<char>, usize)>,
    stack: Seq<crate::parser::Frame>,
)
    requires
        0 <= i <= ts.len(),
        acc.len() + ts.len() - i <= usize::MAX,
        forall|j: int| 0 <= j < acc.len() ==> top_node(#[trigger] acc[j], true),
        entries_point_at(names, acc),
    ensures
        crate::parser::top_at(ts, i, acc, names, stack) matches Ok((c, ns)) ==> (forall|j: int|
            0 <= j < c.len() ==> top_node(#[trigger] c[j], true)) && entries_point_at(ns, c),
    decreases ts.len() - i,
{
    if i < ts.len() {
        match ts[i].token {
            TokenV::SeqKw => {
                lemma_second_seq(ts, i + 1, stack);
                crate::parser::lemma_seq_bounds(ts, i + 1, stack);
                if let Ok((n, k, st)) = crate::parser::seq_at(ts, i + 1, stack) {
                    let name = n.node_type->Sequence_0;
                    if index_of(names, name) is None && i < k <= ts.len() {
                        lemma_top_nodes_push(acc, n, true);
                        lemma_entries_push(names, acc, n);
                        lemma_second_top(ts, k, acc.push(n), names.push((name, acc.len() as usize)), st);
                    }
                }
            },
            TokenV::Literal(s) => {
                let n = crate::parse::node(NodeTypeV::FnCall(s), Seq::empty());
                lemma_top_nodes_push(acc, n, true);
                lemma_entries_push(names, acc, n);
                lemma_second_top(ts, i + 1, acc.push(n), names, stack);
            },
            TokenV::Figure(u) => {
                let n = crate::parse::node(NodeTypeV::Figure(u), Seq::empty());
                lemma_top_nodes_push(acc, n, true);
                lemma_entries_push(names, acc, n);
                lemma_second_top(ts, i + 1, acc.push(n), names, stack);
            },
            TokenV::GapStart => {
                lemma_second_gap(ts, i, stack);
                crate::parser::lemma_gap_bounds(ts, i, stack);
                if let Ok((g, k, st)) = crate::parser::gap_at(ts, i, stack) {
                    if i < k <= ts.len() {
                        lemma_top_nodes_push(acc, g, true);
                        lemma_entries_push(names, acc, g);
                        lemma_second_top(ts, k, acc.push(g), names, st);
                    }
                }
            },
            TokenV::TalKw => {
                if let Ok((u, k)) = crate::parser::figure_at(ts, i + 1) {
                    let n = crate::parse::node(NodeTypeV::Tal(u), Seq::empty());
                    lemma_top_nodes_push(acc, n, true);
                    lemma_entries_push(names, acc, n);
                    lemma_second_top(ts, k, acc.push(n), names, stack);
                }
            },
            TokenV::NadKw => {
                if let Ok((u, k)) = crate::parser::figure_at(ts, i + 1) {
                    let n = crate::parse::node(NodeTypeV::Nad(u), Seq::empty());
                    lemma_top_nodes_push(acc, n, true);
                    lemma_entries_push(names, acc, n);
                    lemma_second_top(ts, k, acc.push(n), names, stack);
                }
            },
            _ => {},
        }
    }
}

/// A tree that the second language's parser gives starts with its `tal` and nadai 4;
/// its root holds declarations, calls, figures, gaps of figures and sequences of figures
/// and gaps; and its table names each of its sequences once, in order, with the index
/// of its node.
pub proof fn law_second_parse_shape(ts: Seq<SpanV>)
    requires
        ts.len() <= usize::MAX,
    ensures
        crate::parser::parse_tokens(ts) matches Ok((root, names)) ==> {
            &&& parsed_tree(root, names, true)
            &&& root.children->0.len() >= 2
            &&& root.children->0[0].node_type is Tal
            &&& root.children->0[1].node_type == NodeTypeV::Nad(4)
        },
{
    if ts.len() > 0 && ts[0].token is TalKw {
        if let Ok((u, k)) = crate::parser::figure_at(ts, 1) {
            let start = seq![
                crate::parse::node(NodeTypeV::Tal(u), Seq::empty()),
                crate::parse::node(NodeTypeV::Nad(4), Seq::empty()),
            ];
            assert(entries_point_at(Seq::empty(), start));
            lemma_second_top(ts, k, start, Seq::empty(), Seq::empty());
            lemma_second_top_extends(ts, k, start, Seq::empty(), Seq::empty());
        }
    }
}

/// The top level read from `i` keeps the children it started with in front.
proof fn lemma_second_top_extends(
    ts: Seq<SpanV>,
    i: int,
    acc: Seq<NodeV>,
    names: Seq<(Seq<char>, usize)>,
    stack: Seq<crate::parser::Frame>,
)
    ensures
        crate::parser::top_at(ts, i, acc, names, stack) matches Ok((c, _)) ==> acc.len() <= c.len()
            && c.take(acc.len() as int) == acc,
    decreases ts.len() - i,
{
    if 0 <= i < ts.len() {
        match ts[i].token {
            TokenV::SeqKw => {
                if let Ok((n, k, st)) = crate::parser::seq_at(ts, i + 1, stack) {
                    let name = n.node_type->Sequence_0;
                    if index_of(names, name) is None && i < k <= ts.len() {
                        lemma_second_top_extends(ts, k, acc.push(n), names.push((name, acc.len() as usize)), st);
                        lemma_take_prefix(acc, n, crate::parser::top_at(ts, i, acc, names, stack));
                    }
                }
            },
            TokenV::Literal(s) => {
                let n = crate::parse::node(NodeTypeV::FnCall(s), Seq::empty());
                lemma_second_top_extends(ts, i + 1, acc.push(n), names, stack);
                lemma_take_prefix(acc, n, crate::parser::top_at(ts, i, acc, names, stack));
            },
            TokenV::Figure(u) => {
                let n = crate::parse::node(NodeTypeV::Figure(u), Seq::empty());
                lemma_second_top_extends(ts, i + 1, acc.push(n), names, stack);
                lemma_take_prefix(acc, n, crate::parser::top_at(ts, i, acc, names, stack));
            },
            TokenV::GapStart => {
                if let Ok((g, k, st)) = crate::parser::gap_at(ts, i, stack) {
                    if i < k <= ts.len() {
                        lemma_second_top_extends(ts, k, acc.push(g), names, st);
                        lemma_take_prefix(acc, g, crate::parser::top_at(ts, i, acc, names, stack));
                    }
                }
            },
            TokenV::TalKw => {
                if let Ok((u, k)) = crate::parser::figure_at(ts, i + 1) {
                    let n = crate::parse::node(NodeTypeV::Tal(u), Seq::empty());
                    lemma_second_top_extends(ts, k, acc.push(n), names, stack);
                    lemma_take_prefix(acc, n, crate::parser::top_at(ts, i, acc, names, stack));
                }
            },
            TokenV::NadKw => {
                if let Ok((u, k)) = crate::parser::figure_at(ts, i + 1) {
                    let n = crate::parse::node(NodeTypeV::Nad(u), Seq::empty());
                    lemma_second_top_extends(ts, k, acc.push(n), names, stack);
                    lemma_take_prefix(acc, n, crate::parser::top_at(ts, i, acc, names, stack));
                }
            },
            _ => {},
        }
    }
}

/// What extends `acc.push(n)` extends `acc`.
proof fn lemma_take_prefix(
    acc: Seq<NodeV>,
    n: NodeV,
    r: Result<(Seq<NodeV>, Seq<(Seq<char>, usize)>), crate::sys::warnings::ErrorV>,
)
    ensures
        (r matches Ok((c, _)) && acc.len() + 1 <= c.len() && c.take(acc.len() + 1int) == acc.push(n)) ==> (r matches Ok(
            (c, _),
        ) && c.take(acc.len() as int) == acc),
{
    if let Ok((c, _)) = r {
        if acc.len() + 1 <= c.len() && c.take(acc.len() + 1int) == acc.push(n) {
            assert(c.take(acc.len() as int) =~= c.take(acc.len() + 1int).take(acc.len() as int));
            assert(acc.push(n).take(acc.len() as int) =~= acc);
        }
    }
}

} // verus!
