//! The size of a tree of the first language, in matras.
use vstd::prelude::*;
use crate::ast::{kids, lemma_node_views, node_view, node_views, Node, NodeType, NodeTypeV, NodeV};
use crate::parse::{index_of, SymbolTable};

verus! {

/// The matras of `n` in the tree `root`, with calls followed through the entries `es`
/// (names with the index of their definition among the root's children) at most `fuel`
/// deep. A sequence counts only where it was reached through a call (`looked_up`).
/// `None` where the count would stop: a missing name, index or child list, a call chain
/// deeper than `fuel`, or a total too large for a `usize`.
pub open spec fn size_of(n: NodeV, root: NodeV, es: Seq<(Seq<char>, usize)>, looked_up: bool, fuel: nat) -> Option<int>
    decreases fuel, n, 0int,
{
    match n.node_type {
        NodeTypeV::Figure(u) => Some(u as int),
        NodeTypeV::FnCall(s) => match index_of(es, s) {
            None => None,
            Some(pos) => match root.children {
                None => None,
                Some(rc) => if pos < rc.len() && fuel > 0 {
                    size_of(rc[pos as int], root, es, true, (fuel - 1) as nat)
                } else {
                    None
                },
            },
        },
        NodeTypeV::Root | NodeTypeV::Gap => match n.children {
            None => None,
            Some(c) => sum_sizes(c, 0, 0, root, es, fuel),
        },
        NodeTypeV::Sequence(_) => if !looked_up {
            Some(0)
        } else {
            match n.children {
                None => None,
                Some(c) => sum_sizes(c, 0, 0, root, es, fuel),
            }
        },
        _ => Some(0),
    }
}

/// Adding the matras of the trees `cs` from `i` on to `acc`.
pub open spec fn sum_sizes(
    cs: Seq<NodeV>,
    i: int,
    acc: int,
    root: NodeV,
    es: Seq<(Seq<char>, usize)>,
    fuel: nat,
) -> Option<int>
    decreases fuel, cs, cs.len() - i,
{
    if i < 0 || i >= cs.len() {
        Some(acc)
    } else {
        match size_of(cs[i], root, es, false, fuel) {
            Some(v) => if acc + v > usize::MAX {
                None
            } else {
                sum_sizes(cs, i + 1, acc + v, root, es, fuel)
            },
            None => None,
        }
    }
}

/// How deep calls are followed: one more than the root's children, enough for every
/// chain of calls that visits no definition twice.
pub open spec fn call_depth(root: NodeV) -> nat {
    kids(root).len() + 1
}

/// The matras of `head` in the tree `root`; sequences count only where they are called.
pub fn count_m(head: &Node, root: &Node, symbol_table: &SymbolTable) -> (r: usize)
    requires
        size_of(head@, root@, symbol_table.entries(), false, call_depth(root@)) is Some,
    ensures
        r == size_of(head@, root@, symbol_table.entries(), false, call_depth(root@))->0,
{
    return size_helper(head, root, symbol_table, false, Ghost(call_depth(root@)));
}

#[verifier::loop_isolation(false)]
fn size_helper(
    n: &Node,
    root: &Node,
    symbols: &SymbolTable,
    seq_lookup_state: bool,
    Ghost(fuel): Ghost<nat>,
) -> (r: usize)
    requires
        size_of(n@, root@, symbols.entries(), seq_lookup_state, fuel) is Some,
    ensures
        r == size_of(n@, root@, symbols.entries(), seq_lookup_state, fuel)->0,
    decreases fuel, n,
{
    let mut res: usize = 0;
    match n.node_type {
        NodeType::Figure(u) => return u,
        NodeType::FnCall(s) => {
            let pos = symbols.get(s);
            if let Some(root_children) = &root.children {
                proof {
                    lemma_node_views(root_children@);
                }
                let target_fn_node = &root_children[pos];
                res = res + size_helper(target_fn_node, root, symbols, true, Ghost((fuel - 1) as nat));
            } else {
                proof {
                    assert(false);
                }
            }
        },
        NodeType::Tal(_) | NodeType::Nad(_) => {},
        _ => {
            if !seq_lookup_state && matches!(n.node_type, NodeType::Sequence(_)) {
                return 0;
            }
            match &n.children {
                Some(children) => {
                    let ghost cs = node_views(children@);
                    proof {
                        lemma_node_views(children@);
                    }
                    let mut i: usize = 0;
                    while i < children.len()
                        invariant
                            i <= children.len(),
                            sum_sizes(cs, i as int, res as int, root@, symbols.entries(), fuel)
                                == sum_sizes(cs, 0, 0, root@, symbols.entries(), fuel),
                        decreases children.len() - i,
                    {
                        let c = &children[i];
                        proof {
                            assert(decreases_to!(n => n.children));
                            assert(decreases_to!(n.children => n.children->0));
                            assert(decreases_to!(children => children@[i as int]));
                        }
                        res = res + size_helper(c, root, symbols, false, Ghost(fuel));
                        i = i + 1;
                    }
                },
                None => {
                    proof {
                        assert(false);
                    }
                },
            }
        },
    }
    res
}

} // verus!
