//! Counting matras: the figures of a tree, with calls of sequences counted at their size.
use vstd::prelude::*;
use crate::sys::ast::{ast_view, ast_views, lemma_ast_views, ASTNode, AstV};
use crate::sys::transforms::fails_with;
use crate::sys::warnings::{Error, ErrorV};
use crate::sys::{lookup, SymbolTable};

verus! {

/// The outcome of a count: a value, an error, or a value too large for a `usize`.
pub enum Count {
    Value(int),
    Failed(ErrorV),
    TooLarge,
}

/// An error that belongs to no place in the source.
pub open spec fn global_error(msg: Seq<char>) -> ErrorV {
    ErrorV { pos: None, msg }
}

/// Adding the figures of a gap's children from `i` on to `acc`.
pub open spec fn gap_figures(sub: Seq<AstV>, i: int, acc: int) -> Count
    decreases sub.len() - i,
{
    if i < 0 || i >= sub.len() {
        Count::Value(acc)
    } else {
        match sub[i] {
            AstV::Figure(u) => if acc + u > usize::MAX {
                Count::TooLarge
            } else {
                gap_figures(sub, i + 1, acc + u)
            },
            _ => Count::Failed(global_error("encountered illegal node in gap"@)),
        }
    }
}

/// Adding the figures of a sequence's children from `i` on to `acc`, those inside gaps too.
pub open spec fn seq_figures(cs: Seq<AstV>, i: int, acc: int) -> Count
    decreases cs.len() - i,
{
    if i < 0 || i >= cs.len() {
        Count::Value(acc)
    } else {
        match cs[i] {
            AstV::Figure(u) => if acc + u > usize::MAX {
                Count::TooLarge
            } else {
                seq_figures(cs, i + 1, acc + u)
            },
            AstV::Gap(sub) => match gap_figures(sub, 0, acc) {
                Count::Value(a) => seq_figures(cs, i + 1, a),
                other => other,
            },
            _ => Count::Failed(global_error("encountered illegal node in sequence"@)),
        }
    }
}

/// The matras of a sequence definition.
pub open spec fn seq_count(head: AstV) -> Count {
    match head {
        AstV::Sequence(_, cs) => seq_figures(cs, 0, 0),
        _ => Count::Failed(global_error("cannot invoke helper on non-sequence node"@)),
    }
}

/// The matras of a tree, calls counted through the sequences of `es`.
pub open spec fn tree_count(n: AstV, es: Seq<(Seq<char>, AstV)>) -> Count
    decreases n, 0int,
{
    match n {
        AstV::Figure(u) => Count::Value(u as int),
        AstV::FnCall(s) => match lookup(es, s) {
            None => Count::Failed(global_error("undefined sequence: "@ + s)),
            Some(t) => seq_count(t),
        },
        AstV::Root(v) => list_count(v, 0, 0, es),
        AstV::Gap(v) => list_count(v, 0, 0, es),
        _ => Count::Value(0),
    }
}

/// Adding the matras of the trees `cs` from `i` on to `acc`.
pub open spec fn list_count(cs: Seq<AstV>, i: int, acc: int, es: Seq<(Seq<char>, AstV)>) -> Count
    decreases cs, cs.len() - i,
{
    if i < 0 || i >= cs.len() {
        Count::Value(acc)
    } else {
        match tree_count(cs[i], es) {
            Count::Value(c) => if acc + c > usize::MAX {
                Count::TooLarge
            } else {
                list_count(cs, i + 1, acc + c, es)
            },
            other => other,
        }
    }
}

/// Adding a gap's figures never lowers the sum.
pub proof fn lemma_gap_figures_grow(sub: Seq<AstV>, i: int, acc: int)
    ensures
        gap_figures(sub, i, acc) matches Count::Value(v) ==> v >= acc,
    decreases sub.len() - i,
{
    if 0 <= i < sub.len() {
        if let AstV::Figure(u) = sub[i] {
            lemma_gap_figures_grow(sub, i + 1, acc + u);
        }
    }
}

/// Adding a sequence's figures never lowers the sum.
pub proof fn lemma_seq_figures_grow(cs: Seq<AstV>, i: int, acc: int)
    ensures
        seq_figures(cs, i, acc) matches Count::Value(v) ==> v >= acc,
    decreases cs.len() - i,
{
    if 0 <= i < cs.len() {
        match cs[i] {
            AstV::Figure(u) => lemma_seq_figures_grow(cs, i + 1, acc + u),
            AstV::Gap(sub) => {
                lemma_gap_figures_grow(sub, 0, acc);
                if let Count::Value(a) = gap_figures(sub, 0, acc) {
                    lemma_seq_figures_grow(cs, i + 1, a);
                }
            },
            _ => {},
        }
    }
}

/// A count that comes out as a value is not negative.
pub proof fn lemma_counts_nonnegative(n: AstV, es: Seq<(Seq<char>, AstV)>)
    ensures
        tree_count(n, es) matches Count::Value(c) ==> c >= 0,
    decreases n, 0int,
{
    match n {
        AstV::FnCall(s) => {
            if let Some(t) = lookup(es, s) {
                if let AstV::Sequence(_, cs) = t {
                    lemma_seq_figures_grow(cs, 0, 0);
                }
            }
        },
        AstV::Root(v) => lemma_list_counts_grow(v, 0, 0, es),
        AstV::Gap(v) => lemma_list_counts_grow(v, 0, 0, es),
        _ => {},
    }
}

/// Adding the counts of trees never lowers the sum.
pub proof fn lemma_list_counts_grow(cs: Seq<AstV>, i: int, acc: int, es: Seq<(Seq<char>, AstV)>)
    ensures
        list_count(cs, i, acc, es) matches Count::Value(v) ==> v >= acc,
    decreases cs, cs.len() - i,
{
    if 0 <= i < cs.len() {
        assert(decreases_to!(cs => cs[i]));
        lemma_counts_nonnegative(cs[i], es);
        if let Count::Value(c) = tree_count(cs[i], es) {
            lemma_list_counts_grow(cs, i + 1, acc + c, es);
        }
    }
}

/// Counting the trees `cs` with one more at the end counts `cs` first and then adds the
/// last tree's count.
proof fn lemma_list_count_push(cs: Seq<AstV>, i: int, acc: int, x: AstV, es: Seq<(Seq<char>, AstV)>)
    requires
        0 <= i <= cs.len(),
    ensures
        list_count(cs.push(x), i, acc, es) == match list_count(cs, i, acc, es) {
            Count::Value(a) => match tree_count(x, es) {
                Count::Value(b) => if a + b > usize::MAX {
                    Count::TooLarge
                } else {
                    Count::Value(a + b)
                },
                other => other,
            },
            other => other,
        },
    decreases cs.len() - i,
{
    let longer = cs.push(x);
    if i < cs.len() {
        assert(longer[i] == cs[i]);
        if let Count::Value(c) = tree_count(cs[i], es) {
            if acc + c <= usize::MAX {
                lemma_list_count_push(cs, i + 1, acc + c, x, es);
            }
        }
    } else {
        assert(longer[i] == x);
        if let Count::Value(b) = tree_count(x, es) {
            assert(list_count(longer, i + 1, acc + b, es) == Count::Value(acc + b));
        }
    }
}

/// A gap counts as the sum of all its children, as a root of the same children does;
/// one more child at the end adds its count (or passes on its error, or is too large).
pub proof fn law_gap_counts_all_children(v: Seq<AstV>, x: AstV, es: Seq<(Seq<char>, AstV)>)
    ensures
        tree_count(AstV::Gap(v), es) == tree_count(AstV::Root(v), es),
        tree_count(AstV::Gap(Seq::empty()), es) == Count::Value(0),
        tree_count(AstV::Gap(v.push(x)), es) == match tree_count(AstV::Gap(v), es) {
            Count::Value(a) => match tree_count(x, es) {
                Count::Value(b) => if a + b > usize::MAX {
                    Count::TooLarge
                } else {
                    Count::Value(a + b)
                },
                other => other,
            },
            other => other,
        },
{
    lemma_list_count_push(v, 0, 0, x, es);
}

/// Whether a count came out as `r`.
pub open spec fn counted(r: Result<usize, Error>, c: Count) -> bool {
    match c {
        Count::Value(v) => r matches Ok(x) && x == v,
        Count::Failed(e) => fails_with(r, e),
        Count::TooLarge => true,
    }
}

/// Adds the figures of the gap children `sub` to `acc`.
fn add_gap_figures(sub: &Vec<ASTNode>, acc: usize) -> (r: Result<usize, Error>)
    requires
        !(gap_figures(ast_views(sub@), 0, acc as int) is TooLarge),
    ensures
        counted(r, gap_figures(ast_views(sub@), 0, acc as int)),
{
    let ghost vs = ast_views(sub@);
    proof {
        lemma_ast_views(sub@);
    }
    let mut res = acc;
    let mut j: usize = 0;
    while j < sub.len()
        invariant
            j <= sub.len(),
            vs == ast_views(sub@),
            vs.len() == sub.len(),
            forall|k: int| 0 <= k < sub.len() ==> vs[k] == ast_view(#[trigger] sub@[k]),
            gap_figures(vs, j as int, res as int) == gap_figures(vs, 0, acc as int),
            !(gap_figures(vs, 0, acc as int) is TooLarge),
        decreases sub.len() - j,
    {
        match &sub[j] {
            ASTNode::Figure(u) => {
                res = res + *u;
            },
            _ => {
                return Err(Error::global("encountered illegal node in gap"));
            },
        }
        j = j + 1;
    }
    Ok(res)
}

/// The matras of a sequence definition: its figures, those inside its gaps too.
pub fn seq_count_m<'p>(head: &ASTNode<'p>) -> (r: Result<usize, Error>)
    requires
        !(seq_count(head@) is TooLarge),
    ensures
        counted(r, seq_count(head@)),
{
    let mut res: usize = 0;
    match head {
        ASTNode::Sequence(_s, children) => {
            let ghost cs = ast_views(children@);
            proof {
                lemma_ast_views(children@);
            }
            let mut i: usize = 0;
            while i < children.len()
                invariant
                    i <= children.len(),
                    cs == ast_views(children@),
                    cs.len() == children.len(),
                    forall|k: int| 0 <= k < children.len() ==> cs[k] == ast_view(#[trigger] children@[k]),
                    seq_figures(cs, i as int, res as int) == seq_figures(cs, 0, 0),
                    seq_count(head@) == seq_figures(cs, 0, 0),
                    !(seq_figures(cs, 0, 0) is TooLarge),
                decreases children.len() - i,
            {
                match &children[i] {
                    ASTNode::Figure(u) => {
                        res = res + *u;
                    },
                    ASTNode::Gap(sub_children) => {
                        assert(cs[i as int] == AstV::Gap(ast_views(sub_children@)));
                        match add_gap_figures(sub_children, res) {
                            Ok(v) => {
                                res = v;
                            },
                            Err(e) => {
                                return Err(e);
                            },
                        }
                    },
                    _ => {
                        return Err(Error::global("encountered illegal node in sequence"));
                    },
                }
                i = i + 1;
            }
            Ok(res)
        },
        _ => Err(Error::global("cannot invoke helper on non-sequence node")),
    }
}

/// The matras of the tree `root`, calls counted at the size of the sequences they name.
#[verifier::loop_isolation(false)]
pub fn count_m<'p>(root: &ASTNode<'p>, symbols: &SymbolTable<'p>) -> (r: Result<usize, Error>)
    requires
        !(tree_count(root@, symbols.entries()) is TooLarge),
    ensures
        counted(r, tree_count(root@, symbols.entries())),
    decreases root,
{
    let mut res: usize = 0;
    match root {
        ASTNode::Figure(u) => {
            return Ok(*u);
        },
        ASTNode::FnCall(s) => {
            let target_node = match symbols.get(s) {
                Ok(t) => t,
                Err(e) => {
                    return Err(e);
                },
            };
            match seq_count_m(target_node) {
                Ok(c) => {
                    res = res + c;
                },
                Err(e) => {
                    return Err(e);
                },
            }
        },
        ASTNode::Root(v) => {
            let ghost cs = ast_views(v@);
            let ghost es = symbols.entries();
            proof {
                lemma_ast_views(v@);
            }
            let mut i: usize = 0;
            while i < v.len()
                invariant
                    i <= v.len(),
                    cs == ast_views(v@),
                    cs.len() == v.len(),
                    es == symbols.entries(),
                    forall|k: int| 0 <= k < v.len() ==> cs[k] == ast_view(#[trigger] v@[k]),
                    list_count(cs, i as int, res as int, es) == list_count(cs, 0, 0, es),
                    tree_count(root@, es) == list_count(cs, 0, 0, es),
                    !(list_count(cs, 0, 0, es) is TooLarge),
                decreases v.len() - i,
            {
                let c = &v[i];
                assert(cs[i as int] == c@);
                proof {
                    assert(decreases_to!(root => root->Root_0));
                }
                match count_m(c, symbols) {
                    Ok(k) => {
                        res = res + k;
                    },
                    Err(e) => {
                        return Err(e);
                    },
                }
                i = i + 1;
            }
        },
        ASTNode::Gap(v) => {
            let ghost cs = ast_views(v@);
            let ghost es = symbols.entries();
            proof {
                lemma_ast_views(v@);
            }
            let mut i: usize = 0;
            while i < v.len()
                invariant
                    i <= v.len(),
                    cs == ast_views(v@),
                    cs.len() == v.len(),
                    es == symbols.entries(),
                    forall|k: int| 0 <= k < v.len() ==> cs[k] == ast_view(#[trigger] v@[k]),
                    list_count(cs, i as int, res as int, es) == list_count(cs, 0, 0, es),
                    tree_count(root@, es) == list_count(cs, 0, 0, es),
                    !(list_count(cs, 0, 0, es) is TooLarge),
                decreases v.len() - i,
            {
                let c = &v[i];
                assert(cs[i as int] == c@);
                proof {
                    assert(decreases_to!(root => root->Gap_0));
                }
                match count_m(c, symbols) {
                    Ok(k) => {
                        res = res + k;
                    },
                    Err(e) => {
                        return Err(e);
                    },
                }
                i = i + 1;
            }
        },
        ASTNode::Sequence(_, _) => {
            return Ok(0);
        },
        _ => {
            res = 0;
        },
    }
    Ok(res)
}

} // verus!
