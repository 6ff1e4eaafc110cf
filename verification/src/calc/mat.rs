//! The size of a tree in matras, calls resolved through the parser's table of sequences.
use vstd::prelude::*;
use crate::parse::index_of;
use crate::sys::ast::{ast_view, ast_views, lemma_ast_views, ASTNode, AstV};
use crate::sys::parser::SymbolTable;
use crate::sys::stdlib::mat::global_error;
use crate::sys::transforms::fails_with;
use crate::sys::warnings::{Error, ErrorV};

verus! {

/// The outcome of a size: a value, an error, or no value at all: where the count would
/// panic (a call whose definition is missing from the root), follow calls deeper than
/// allowed, or pass `usize::MAX`.
pub enum Size {
    Value(int),
    Failed(ErrorV),
    Undefined,
}

/// The matras of `n` in the tree `root`, calls followed through the entries `es` at most
/// `fuel` deep; a sequence counts only where it was reached through a call (`looked_up`).
pub open spec fn size_of(n: AstV, root: AstV, es: Seq<(Seq<char>, usize)>, looked_up: bool, fuel: nat) -> Size
    decreases fuel, n, 0int,
{
    match n {
        AstV::Figure(u) => Size::Value(u as int),
        AstV::FnCall(s) => match index_of(es, s) {
            None => Size::Failed(global_error("undefined sequence: "@ + s)),
            Some(pos) => if root.has_children() && pos < root.children().len() && fuel > 0 {
                size_of(root.children()[pos as int], root, es, true, (fuel - 1) as nat)
            } else {
                Size::Undefined
            },
        },
        AstV::Root(v) => sum_sizes(v, 0, 0, root, es, fuel),
        AstV::Gap(v) => sum_sizes(v, 0, 0, root, es, fuel),
        AstV::Sequence(_, v) => if !looked_up {
            Size::Value(0)
        } else {
            sum_sizes(v, 0, 0, root, es, fuel)
        },
        _ => Size::Value(0),
    }
}

/// Adding the matras of the trees `cs` from `i` on to `acc`.
pub open spec fn sum_sizes(
    cs: Seq<AstV>,
    i: int,
    acc: int,
    root: AstV,
    es: Seq<(Seq<char>, usize)>,
    fuel: nat,
) -> Size
    decreases fuel, cs, cs.len() - i,
{
    if i < 0 || i >= cs.len() {
        Size::Value(acc)
    } else {
        match size_of(cs[i], root, es, false, fuel) {
            Size::Value(v) => if acc + v > usize::MAX {
                Size::Undefined
            } else {
                sum_sizes(cs, i + 1, acc + v, root, es, fuel)
            },
            other => other,
        }
    }
}

/// How deep calls are followed: one more than the root's children, enough for every
/// chain of calls that visits no definition twice.
pub open spec fn call_depth(root: AstV) -> nat {
    root.children().len() + 1
}

/// A size that has a value or an error keeps it with more fuel; a value is never negative.
pub proof fn lemma_size_fuel(n: AstV, root: AstV, es: Seq<(Seq<char>, usize)>, looked_up: bool, f: nat, g: nat)
    requires
        f <= g,
        !(size_of(n, root, es, looked_up, f) is Undefined),
    ensures
        size_of(n, root, es, looked_up, g) == size_of(n, root, es, looked_up, f),
        size_of(n, root, es, looked_up, f) matches Size::Value(v) ==> v >= 0,
    decreases f, n, 0int,
{
    match n {
        AstV::FnCall(s) => {
            if let Some(pos) = index_of(es, s) {
                if root.has_children() && pos < root.children().len() && f > 0 {
                    lemma_size_fuel(root.children()[pos as int], root, es, true, (f - 1) as nat, (g - 1) as nat);
                }
            }
        },
        AstV::Root(v) => lemma_sum_fuel(v, 0, 0, root, es, f, g),
        AstV::Gap(v) => lemma_sum_fuel(v, 0, 0, root, es, f, g),
        AstV::Sequence(_, v) => {
            if looked_up {
                lemma_sum_fuel(v, 0, 0, root, es, f, g);
            }
        },
        _ => {},
    }
}

/// A sum that has a value or an error keeps it with more fuel; a value is at least `acc`.
pub proof fn lemma_sum_fuel(
    cs: Seq<AstV>,
    i: int,
    acc: int,
    root: AstV,
    es: Seq<(Seq<char>, usize)>,
    f: nat,
    g: nat,
)
    requires
        f <= g,
        !(sum_sizes(cs, i, acc, root, es, f) is Undefined),
    ensures
        sum_sizes(cs, i, acc, root, es, g) == sum_sizes(cs, i, acc, root, es, f),
        sum_sizes(cs, i, acc, root, es, f) matches Size::Value(v) ==> v >= acc,
    decreases f, cs, cs.len() - i,
{
    if 0 <= i < cs.len() {
        assert(decreases_to!(cs => cs[i]));
        lemma_size_fuel(cs[i], root, es, false, f, g);
        if let Size::Value(v) = size_of(cs[i], root, es, false, f) {
            if acc + v <= usize::MAX {
                lemma_sum_fuel(cs, i + 1, acc + v, root, es, f, g);
            }
        }
    }
}

/// Whether the size came out as `r`.
pub open spec fn sized(r: Result<usize, Error>, s: Size) -> bool {
    match s {
        Size::Value(v) => r matches Ok(x) && x == v,
        Size::Failed(e) => fails_with(r, e),
        Size::Undefined => true,
    }
}

/// The matras of `head` in the tree `root`; sequences count only where they are called.
pub fn count_m(head: &ASTNode, root: &ASTNode, symbol_table: &SymbolTable) -> (r: Result<usize, Error>)
    requires
        !(size_of(head@, root@, symbol_table.entries(), false, call_depth(root@)) is Undefined),
    ensures
        sized(r, size_of(head@, root@, symbol_table.entries(), false, call_depth(root@))),
{
    size_helper(head, root, symbol_table, false)
}

/// The matras of `n` in the tree `root`; `seq_lookup_state` tells whether `n` was
/// reached through a call, the only way a sequence counts.
pub fn size_helper(n: &ASTNode, root: &ASTNode, symbols: &SymbolTable, seq_lookup_state: bool) -> (r: Result<usize, Error>)
    requires
        !(size_of(n@, root@, symbols.entries(), seq_lookup_state, call_depth(root@)) is Undefined),
    ensures
        sized(r, size_of(n@, root@, symbols.entries(), seq_lookup_state, call_depth(root@))),
{
    size_within(n, root, symbols, seq_lookup_state, Ghost(call_depth(root@)))
}

/// The matras of the sequence `head`, reached through a call.
pub fn seq_count_m(head: &ASTNode, root: &ASTNode, symbols: &SymbolTable) -> (r: Result<usize, Error>)
    requires
        !(size_of(head@, root@, symbols.entries(), true, call_depth(root@)) is Undefined),
    ensures
        sized(r, size_of(head@, root@, symbols.entries(), true, call_depth(root@))),
{
    let res = match size_helper(head, root, symbols, true) {
        Ok(v) => v,
        Err(e) => {
            return Err(e);
        },
    };
    Ok(res)
}

#[verifier::loop_isolation(false)]
fn size_within(
    n: &ASTNode,
    root: &ASTNode,
    symbols: &SymbolTable,
    seq_lookup_state: bool,
    Ghost(fuel): Ghost<nat>,
) -> (r: Result<usize, Error>)
    requires
        !(size_of(n@, root@, symbols.entries(), seq_lookup_state, fuel) is Undefined),
    ensures
        sized(r, size_of(n@, root@, symbols.entries(), seq_lookup_state, fuel)),
    decreases fuel, n,
{
    let mut res: usize = 0;
    let v: &Vec<ASTNode> = match n {
        ASTNode::Figure(u) => {
            return Ok(*u);
        },
        ASTNode::FnCall(s) => {
            let pos = match symbols.get(s) {
                Ok(p) => p,
                Err(e) => {
                    return Err(e);
                },
            };
            proof {
                lemma_ast_views(root.kids());
            }
            let target_fn_node = root.get_child(pos);
            match size_within(target_fn_node, root, symbols, true, Ghost((fuel - 1) as nat)) {
                Ok(k) => {
                    res = res + k;
                },
                Err(e) => {
                    return Err(e);
                },
            }
            return Ok(res);
        },
        ASTNode::Root(v) => {
            proof {
                assert(decreases_to!(n => n->Root_0));
            }
            v
        },
        ASTNode::Gap(v) => {
            proof {
                assert(decreases_to!(n => n->Gap_0));
            }
            v
        },
        ASTNode::Sequence(_s, v) => {
            if !seq_lookup_state {
                return Ok(0);
            }
            proof {
                assert(decreases_to!(n => n->Sequence_1));
            }
            v
        },
        _ => {
            return Ok(0);
        },
    };
    let ghost cs = ast_views(v@);
    proof {
        lemma_ast_views(v@);
    }
    let mut i: usize = 0;
    while i < v.len()
        invariant
            i <= v.len(),
            sum_sizes(cs, i as int, res as int, root@, symbols.entries(), fuel) == sum_sizes(
                cs,
                0,
                0,
                root@,
                symbols.entries(),
                fuel,
            ),
        decreases v.len() - i,
    {
        let c = &v[i];
        proof {
            assert(decreases_to!(v => v@[i as int]));
        }
        match size_within(c, root, symbols, false, Ghost(fuel)) {
            Ok(k) => {
                res = res + k;
            },
            Err(e) => {
                return Err(e);
            },
        }
        i = i + 1;
    }
    Ok(res)
}

} // verus!
