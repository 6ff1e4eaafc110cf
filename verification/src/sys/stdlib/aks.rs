//! Counting aksharas: matras gathered into runs, one run per `nad` setting.
use vstd::prelude::*;
use crate::sys::ast::{ast_view, ast_views, lemma_ast_views, ASTNode, AstV};
use crate::sys::interpreter::terms_matras;
use crate::sys::stdlib::mat::{count_m, global_error, list_count, seq_count, seq_count_m, tree_count, Count};
use crate::sys::transforms::fails_with;
use crate::sys::warnings::{Error, ErrorV};
use crate::sys::{lookup, SymbolTable};

verus! {

/// The outcome of gathering runs: the runs, an error, or a count too large for a `usize`.
pub enum Runs {
    Done(Seq<(usize, usize)>),
    Failed(ErrorV),
    TooLarge,
}

/// The matras that a top-level node adds to the current run.
pub open spec fn node_matras(n: AstV, es: Seq<(Seq<char>, AstV)>) -> Count {
    match n {
        AstV::Figure(u) => Count::Value(u as int),
        AstV::Gap(_) => tree_count(n, es),
        AstV::FnCall(s) => match lookup(es, s) {
            None => Count::Failed(global_error("undefined sequence: "@ + s)),
            Some(t) => seq_count(t),
        },
        _ => Count::Value(0),
    }
}

/// Gathering the runs of the children `cs` from `i` on: `acc` matras in the current run,
/// whose nadai is `nad`, after the finished runs `runs`. Each `nad` closes the current
/// run and opens one with its own nadai; the last run closes at the end.
pub open spec fn gather_runs(
    cs: Seq<AstV>,
    i: int,
    acc: int,
    nad: usize,
    runs: Seq<(usize, usize)>,
    es: Seq<(Seq<char>, AstV)>,
) -> Runs
    decreases cs.len() - i,
{
    if i < 0 || i >= cs.len() {
        Runs::Done(runs.push((acc as usize, nad)))
    } else {
        match cs[i] {
            AstV::Nad(u) => gather_runs(cs, i + 1, 0, u, runs.push((acc as usize, nad)), es),
            AstV::Figure(_) | AstV::Gap(_) | AstV::FnCall(_) => match node_matras(cs[i], es) {
                Count::Value(c) => if acc + c > usize::MAX {
                    Runs::TooLarge
                } else {
                    gather_runs(cs, i + 1, acc + c, nad, runs, es)
                },
                Count::Failed(e) => Runs::Failed(e),
                Count::TooLarge => Runs::TooLarge,
            },
            _ => gather_runs(cs, i + 1, acc, nad, runs, es),
        }
    }
}

/// The akshara runs of a program's top level: `(matras, nadai)` pairs in order, the
/// first with nadai 4. The akshara count is the sum of the aksharas of these runs.
pub fn count_a<'p>(root: &ASTNode<'p>, symbols: &SymbolTable<'p>) -> (r: Result<
    Vec<(usize, usize)>,
    Error,
>)
    requires
        root@.has_children(),
        !(gather_runs(root@.children(), 0, 0, 4, Seq::empty(), symbols.entries()) is TooLarge),
    ensures
        match gather_runs(root@.children(), 0, 0, 4, Seq::empty(), symbols.entries()) {
            Runs::Done(runs) => r matches Ok(v) && v@ == runs,
            Runs::Failed(e) => fails_with(r, e),
            Runs::TooLarge => true,
        },
{
    let mut ret: Vec<(usize, usize)> = Vec::new();
    let mut accumulator: usize = 0;
    let child = root.get_children();
    let mut curr_nad: usize = 4;
    let ghost cs = root@.children();
    let ghost es = symbols.entries();
    proof {
        lemma_ast_views(child@);
    }
    let mut i: usize = 0;
    while i < child.len()
        invariant
            i <= child.len(),
            cs == ast_views(child@),
            cs == root@.children(),
            cs.len() == child.len(),
            es == symbols.entries(),
            forall|k: int| 0 <= k < child.len() ==> cs[k] == ast_view(#[trigger] child@[k]),
            gather_runs(cs, i as int, accumulator as int, curr_nad, ret@, es) == gather_runs(
                cs,
                0,
                0,
                4,
                Seq::empty(),
                es,
            ),
            !(gather_runs(cs, 0, 0, 4, Seq::empty(), es) is TooLarge),
        decreases child.len() - i,
    {
        let n = &child[i];
        assert(cs[i as int] == n@);
        match n {
            ASTNode::Nad(u) => {
                ret.push((accumulator, curr_nad));
                accumulator = 0;
                curr_nad = *u;
            },
            ASTNode::Figure(u) => {
                accumulator = accumulator + *u;
            },
            ASTNode::Gap(_) => {
                match count_m(n, symbols) {
                    Ok(mc) => {
                        accumulator = accumulator + mc;
                    },
                    Err(e) => {
                        return Err(e);
                    },
                }
            },
            ASTNode::FnCall(s) => {
                let target_fn_node = match symbols.get(s) {
                    Ok(t) => t,
                    Err(e) => {
                        return Err(e);
                    },
                };
                match seq_count_m(target_fn_node) {
                    Ok(mc) => {
                        accumulator = accumulator + mc;
                    },
                    Err(e) => {
                        return Err(e);
                    },
                }
            },
            _ => {},
        }
        i = i + 1;
    }
    ret.push((accumulator, curr_nad));
    Ok(ret)
}

/// Gathering from `i` on, with `acc` matras in the open run after `runs`, ends with
/// runs whose matras add up to what counting from `i` on adds to `total`, where
/// `total` is the matras of `runs` and `acc` together.
proof fn lemma_runs_add_up(
    cs: Seq<AstV>,
    i: int,
    acc: int,
    nad: usize,
    runs: Seq<(usize, usize)>,
    es: Seq<(Seq<char>, AstV)>,
    total: int,
)
    requires
        0 <= i,
        0 <= acc <= usize::MAX,
        total == terms_matras(runs) + acc,
        forall|j: int| 0 <= j < cs.len() ==> !(#[trigger] cs[j] is Root),
    ensures
        gather_runs(cs, i, acc, nad, runs, es) matches Runs::Done(fin) ==> (list_count(cs, i, total, es) matches Count::Value(
            m,
        ) ==> terms_matras(fin) == m),
    decreases cs.len() - i,
{
    if i >= cs.len() {
        let fin = runs.push((acc as usize, nad));
        assert(fin.drop_last() =~= runs);
    } else {
        assert(!(cs[i] is Root));
        match cs[i] {
            AstV::Nad(u) => {
                let next = runs.push((acc as usize, nad));
                assert(next.drop_last() =~= runs);
                lemma_runs_add_up(cs, i + 1, 0, u, next, es, total);
            },
            AstV::Figure(_) | AstV::Gap(_) | AstV::FnCall(_) => {
                if let Count::Value(c) = node_matras(cs[i], es) {
                    assert(tree_count(cs[i], es) == Count::Value(c));
                    if acc + c <= usize::MAX && total + c <= usize::MAX {
                        crate::sys::stdlib::mat::lemma_counts_nonnegative(cs[i], es);
                        lemma_runs_add_up(cs, i + 1, acc + c, nad, runs, es, total + c);
                    }
                }
            },
            _ => {
                assert(tree_count(cs[i], es) == Count::Value(0));
                lemma_runs_add_up(cs, i + 1, acc, nad, runs, es, total);
            },
        }
    }
}

/// The akshara runs of a top level add up to its matras: where both counts come out,
/// the matras of the runs that `count_a` gives add up to what `count_m` gives for the
/// root. (A root nested among the children is counted by `count_m` only, so such
/// children are left out.)
pub proof fn law_runs_add_up_to_matras(cs: Seq<AstV>, es: Seq<(Seq<char>, AstV)>)
    requires
        forall|j: int| 0 <= j < cs.len() ==> !(#[trigger] cs[j] is Root),
    ensures
        gather_runs(cs, 0, 0, 4, Seq::empty(), es) matches Runs::Done(runs) ==> (tree_count(
            AstV::Root(cs),
            es,
        ) matches Count::Value(m) ==> terms_matras(runs) == m),
{
    assert(terms_matras(Seq::<(usize, usize)>::empty()) == 0);
    lemma_runs_add_up(cs, 0, 0, 4, Seq::empty(), es, 0);
}

} // verus!
