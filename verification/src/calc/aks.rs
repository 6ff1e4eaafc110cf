//! Akshara runs over the current syntax tree, calls resolved through the parser's table.
use vstd::prelude::*;
use crate::calc::mat::{call_depth, count_m, lemma_size_fuel, size_helper, size_of, sum_sizes, Size};
use crate::sys::interpreter::terms_matras;
use crate::parse::index_of;
use crate::sys::ast::{ast_view, ast_views, lemma_ast_views, ASTNode, AstV};
use crate::sys::parser::SymbolTable;
use crate::sys::stdlib::aks::Runs;
use crate::sys::stdlib::mat::global_error;
use crate::sys::transforms::fails_with;
use crate::sys::warnings::Error;

verus! {

/// The matras that a top-level node adds to the current run.
pub open spec fn node_size(n: AstV, root: AstV, es: Seq<(Seq<char>, usize)>) -> Size {
    match n {
        AstV::Figure(u) => Size::Value(u as int),
        AstV::Gap(_) => size_of(n, root, es, false, call_depth(root)),
        AstV::FnCall(s) => match index_of(es, s) {
            None => Size::Failed(global_error("undefined sequence: "@ + s)),
            Some(pos) => if pos < root.children().len() {
                size_of(root.children()[pos as int], root, es, true, call_depth(root))
            } else {
                Size::Undefined
            },
        },
        _ => Size::Value(0),
    }
}

/// Gathering the runs of the root's children from `i` on: `acc` matras in the current
/// run, whose nadai is `nad`, after the finished runs `runs`. `Runs::TooLarge` stands
/// here for a count that has no value at all (see [`Size`]).
pub open spec fn gather(
    root: AstV,
    i: int,
    acc: int,
    nad: usize,
    runs: Seq<(usize, usize)>,
    es: Seq<(Seq<char>, usize)>,
) -> Runs
    decreases root.children().len() - i,
{
    let cs = root.children();
    if i < 0 || i >= cs.len() {
        Runs::Done(runs.push((acc as usize, nad)))
    } else {
        match cs[i] {
            AstV::Nad(u) => gather(root, i + 1, 0, u, runs.push((acc as usize, nad)), es),
            AstV::Figure(_) | AstV::Gap(_) | AstV::FnCall(_) => match node_size(cs[i], root, es) {
                Size::Value(c) => if acc + c > usize::MAX {
                    Runs::TooLarge
                } else {
                    gather(root, i + 1, acc + c, nad, runs, es)
                },
                Size::Failed(e) => Runs::Failed(e),
                Size::Undefined => Runs::TooLarge,
            },
            _ => gather(root, i + 1, acc, nad, runs, es),
        }
    }
}

/// The akshara runs of the root's children: `(matras, nadai)` pairs in order, the first
/// with nadai 4; the akshara count is the sum of their aksharas.
pub fn count_a(root: &ASTNode, symbol_table: &SymbolTable) -> (r: Result<Vec<(usize, usize)>, Error>)
    requires
        root@.has_children(),
        !(gather(root@, 0, 0, 4, Seq::empty(), symbol_table.entries()) is TooLarge),
    ensures
        match gather(root@, 0, 0, 4, Seq::empty(), symbol_table.entries()) {
            Runs::Done(runs) => r matches Ok(v) && v@ == runs,
            Runs::Failed(e) => fails_with(r, e),
            Runs::TooLarge => true,
        },
{
    let mut ret: Vec<(usize, usize)> = Vec::new();
    let mut accumulator: usize = 0;
    let chld = root.get_children();
    let mut curr_nad: usize = 4;
    let ghost cs = root@.children();
    let ghost es = symbol_table.entries();
    proof {
        lemma_ast_views(chld@);
    }
    let mut i: usize = 0;
    while i < chld.len()
        invariant
            i <= chld.len(),
            cs == ast_views(chld@),
            cs == root@.children(),
            cs.len() == chld.len(),
            root@.has_children(),
            es == symbol_table.entries(),
            forall|k: int| 0 <= k < chld.len() ==> cs[k] == ast_view(#[trigger] chld@[k]),
            gather(root@, i as int, accumulator as int, curr_nad, ret@, es) == gather(
                root@,
                0,
                0,
                4,
                Seq::empty(),
                es,
            ),
            !(gather(root@, 0, 0, 4, Seq::empty(), es) is TooLarge),
        decreases chld.len() - i,
    {
        let n = &chld[i];
        assert(cs[i as int] == n@);
        match n {
            ASTNode::Nad(u) => {
                ret.push((accumulator, curr_nad));
                accumulator = 0;
                curr_nad = *u;
            },
            ASTNode::Figure(u) => {
                accumulator = accumulator + *u;
            },
            ASTNode::Gap(_) => {
                match count_m(n, root, symbol_table) {
                    Ok(mc) => {
                        accumulator = accumulator + mc;
                    },
                    Err(e) => {
                        return Err(e);
                    },
                }
            },
            ASTNode::FnCall(s) => {
                let pos = match symbol_table.get(s) {
                    Ok(p) => p,
                    Err(e) => {
                        return Err(e);
                    },
                };
                let target_fn_node = root.get_child(pos);
                match size_helper(target_fn_node, root, symbol_table, true) {
                    Ok(mc) => {
                        accumulator = accumulator + mc;
                    },
                    Err(e) => {
                        return Err(e);
                    },
                }
            },
            _ => {},
        }
        i = i + 1;
    }
    ret.push((accumulator, curr_nad));
    Ok(ret)
}

/// Gathering from `i` on, with `acc` matras in the open run after `runs`, ends with runs
/// whose matras add up to what sizing the children from `i` on adds to `total`, the
/// matras of `runs` and `acc` together.
proof fn lemma_runs_add_up(
    root: AstV,
    i: int,
    acc: int,
    nad: usize,
    runs: Seq<(usize, usize)>,
    es: Seq<(Seq<char>, usize)>,
    total: int,
)
    requires
        0 <= i,
        0 <= acc <= usize::MAX,
        total == terms_matras(runs) + acc,
        forall|j: int| 0 <= j < root.children().len() ==> !(#[trigger] root.children()[j] is Root),
    ensures
        gather(root, i, acc, nad, runs, es) matches Runs::Done(fin) ==> (sum_sizes(
            root.children(),
            i,
            total,
            root,
            es,
            call_depth(root),
        ) matches Size::Value(m) ==> terms_matras(fin) == m),
    decreases root.children().len() - i,
{
    let cs = root.children();
    let depth = call_depth(root);
    if i >= cs.len() {
        let fin = runs.push((acc as usize, nad));
        assert(fin.drop_last() =~= runs);
    } else {
        assert(!(cs[i] is Root));
        match cs[i] {
            AstV::Nad(u) => {
                let next = runs.push((acc as usize, nad));
                assert(next.drop_last() =~= runs);
                lemma_runs_add_up(root, i + 1, 0, u, next, es, total);
            },
            AstV::Figure(_) | AstV::Gap(_) | AstV::FnCall(_) => {
                if let Size::Value(c) = size_of(cs[i], root, es, false, depth) {
                    lemma_size_fuel(cs[i], root, es, false, depth, depth);
                    if let AstV::FnCall(s) = cs[i] {
                        if let Some(pos) = index_of(es, s) {
                            lemma_size_fuel(cs[pos as int], root, es, true, (depth - 1) as nat, depth);
                        }
                    }
                    assert(node_size(cs[i], root, es) == Size::Value(c));
                    if acc + c <= usize::MAX && total + c <= usize::MAX {
                        lemma_runs_add_up(root, i + 1, acc + c, nad, runs, es, total + c);
                    }
                }
            },
            _ => {
                assert(size_of(cs[i], root, es, false, depth) == Size::Value(0));
                lemma_runs_add_up(root, i + 1, acc, nad, runs, es, total);
            },
        }
    }
}

/// The akshara runs of a root add up to its matras: where both come out, the matras of
/// the runs that `count_a` gives add up to what `count_m` gives for the root. (A root
/// nested among the children is counted by `count_m` only, so such children are left
/// out.)
pub proof fn law_runs_add_up_to_matras(root: AstV, es: Seq<(Seq<char>, usize)>)
    requires
        root is Root,
        forall|j: int| 0 <= j < root.children().len() ==> !(#[trigger] root.children()[j] is Root),
    ensures
        gather(root, 0, 0, 4, Seq::empty(), es) matches Runs::Done(runs) ==> (size_of(
            root,
            root,
            es,
            false,
            call_depth(root),
        ) matches Size::Value(m) ==> terms_matras(runs) == m),
{
    assert(terms_matras(Seq::<(usize, usize)>::empty()) == 0);
    lemma_runs_add_up(root, 0, 0, 4, Seq::empty(), es, 0);
}

} // verus!
