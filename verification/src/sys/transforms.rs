//! Rewrites of a program before it is run.
use vstd::prelude::*;
use crate::sys::ast::{ast_view, ast_views, lemma_ast_views, ASTNode, AstV};
use crate::sys::warnings::{Error, ErrorV};
use crate::sys::{Program, ProgramV};

verus! {

/// The error that `r` holds has the view `e`.
pub open spec fn fails_with<T>(r: Result<T, Error>, e: ErrorV) -> bool {
    r matches Err(x) && x@ == e
}

/// A rewrite of a program.
pub trait Transform {
    /// What the rewrite gives for a program.
    spec fn outcome(&self, p: ProgramV) -> Result<ProgramV, ErrorV>;

    /// Rewrites a program whose root holds children.
    fn mutate<'m>(&self, head: Program<'m>) -> (r: Result<Program<'m>, Error>)
        requires
            head@.root.has_children(),
        ensures
            match self.outcome(head@) {
                Ok(q) => r matches Ok(x) && x@ == q,
                Err(e) => fails_with(r, e),
            },
    ;
}

/// The nodes of `s` that are no interactive command.
pub open spec fn without_interactive(s: Seq<AstV>) -> Seq<AstV>
    decreases s.len(),
{
    if s.len() == 0 {
        Seq::empty()
    } else {
        let rest = without_interactive(s.drop_last());
        if s.last().interactive() {
            rest
        } else {
            rest.push(s.last())
        }
    }
}

/// The nodes of `s` that are sequence definitions or interactive commands.
pub open spec fn interactive_part(s: Seq<AstV>) -> Seq<AstV>
    decreases s.len(),
{
    if s.len() == 0 {
        Seq::empty()
    } else {
        let rest = interactive_part(s.drop_last());
        if s.last() is Sequence || s.last().interactive() {
            rest.push(s.last())
        } else {
            rest
        }
    }
}

/// Dropping the interactive commands leaves none, keeps every other node in its order
/// (nothing is dropped twice), and dropping them again changes nothing.
pub proof fn law_without_interactive(s: Seq<AstV>)
    ensures
        forall|i: int| 0 <= i < without_interactive(s).len() ==> !(
        #[trigger] without_interactive(s)[i]).interactive(),
        without_interactive(without_interactive(s)) == without_interactive(s),
        without_interactive(s).len() <= s.len(),
        (forall|i: int| 0 <= i < s.len() ==> !(#[trigger] s[i]).interactive()) ==> without_interactive(s) == s,
    decreases s.len(),
{
    if s.len() > 0 {
        let rest = s.drop_last();
        law_without_interactive(rest);
        if !s.last().interactive() {
            let w = without_interactive(rest).push(s.last());
            assert(w.drop_last() =~= without_interactive(rest));
            assert(without_interactive(w) == without_interactive(without_interactive(rest)).push(s.last()));
        }
        if forall|i: int| 0 <= i < s.len() ==> !(#[trigger] s[i]).interactive() {
            assert(forall|i: int| 0 <= i < rest.len() ==> rest[i] == s[i]);
            assert(!s[s.len() - 1].interactive());
            assert(s =~= rest.push(s.last()));
        }
    }
}

/// Keeping the sequence definitions and interactive commands keeps only such nodes, in
/// their order, and doing it again changes nothing.
pub proof fn law_interactive_part(s: Seq<AstV>)
    ensures
        forall|i: int| 0 <= i < interactive_part(s).len() ==> (#[trigger] interactive_part(s)[i]) is Sequence
            || interactive_part(s)[i].interactive(),
        interactive_part(interactive_part(s)) == interactive_part(s),
        interactive_part(s).len() <= s.len(),
    decreases s.len(),
{
    if s.len() > 0 {
        let rest = s.drop_last();
        law_interactive_part(rest);
        if s.last() is Sequence || s.last().interactive() {
            let w = interactive_part(rest).push(s.last());
            assert(w.drop_last() =~= interactive_part(rest));
            assert(interactive_part(w) == interactive_part(interactive_part(rest)).push(s.last()));
        }
    }
}

/// Dropping the interactive commands and then keeping the sequence definitions and
/// interactive commands leaves just the sequence definitions.
pub proof fn law_remove_then_keep_interactive(s: Seq<AstV>)
    ensures
        forall|i: int| 0 <= i < interactive_part(without_interactive(s)).len()
            ==> (#[trigger] interactive_part(without_interactive(s))[i]) is Sequence,
{
    law_without_interactive(s);
    law_interactive_part(without_interactive(s));
    assert forall|i: int| 0 <= i < interactive_part(without_interactive(s)).len()
        implies (#[trigger] interactive_part(without_interactive(s))[i]) is Sequence by {
        lemma_interactive_part_members(without_interactive(s), i);
    }
}

/// Each node that `interactive_part` keeps is one of the nodes it was given.
proof fn lemma_interactive_part_members(s: Seq<AstV>, i: int)
    requires
        0 <= i < interactive_part(s).len(),
    ensures
        exists|j: int| 0 <= j < s.len() && s[j] == interactive_part(s)[i],
    decreases s.len(),
{
    let rest = s.drop_last();
    if (s.last() is Sequence || s.last().interactive()) && i == interactive_part(rest).len() {
        assert(s[s.len() - 1] == interactive_part(s)[i]);
    } else {
        lemma_interactive_part_members(rest, i);
        let j = choose|j: int| 0 <= j < rest.len() && rest[j] == interactive_part(rest)[i];
        assert(s[j] == interactive_part(s)[i]);
    }
}

/// Keeping the sequence definitions and interactive commands keeps every one of them,
/// whatever it holds, in its order: each such node of `s` is at a place in the result,
/// the places growing with the places in `s`; and where all of `s` are such nodes the
/// result is `s` itself.
pub proof fn law_interactive_part_keeps_all(s: Seq<AstV>)
    ensures
        forall|j: int|
            0 <= j < s.len() && (#[trigger] s[j] is Sequence || s[j].interactive()) ==> exists|k: int|
                0 <= k < interactive_part(s).len() && interactive_part(s)[k] == s[j] && k == kept_before(
                    s,
                    j,
                ),
        (forall|j: int| 0 <= j < s.len() ==> (#[trigger] s[j] is Sequence || s[j].interactive()))
            ==> interactive_part(s) == s,
    decreases s.len(),
{
    if s.len() > 0 {
        let rest = s.drop_last();
        law_interactive_part_keeps_all(rest);
        lemma_kept_before_len(rest);
        assert forall|j: int|
            0 <= j < s.len() && (#[trigger] s[j] is Sequence || s[j].interactive()) implies exists|k: int|
                0 <= k < interactive_part(s).len() && interactive_part(s)[k] == s[j] && k == kept_before(
                    s,
                    j,
                ) by {
            lemma_kept_before_prefix(s, j);
            if j < rest.len() {
                assert(rest[j] == s[j]);
                let k = choose|k: int|
                    0 <= k < interactive_part(rest).len() && interactive_part(rest)[k] == rest[j] && k
                        == kept_before(rest, j);
                if s.last() is Sequence || s.last().interactive() {
                    assert(interactive_part(s)[k] == interactive_part(rest)[k]);
                }
                assert(0 <= k < interactive_part(s).len() && interactive_part(s)[k] == s[j] && k
                    == kept_before(s, j));
            } else {
                let k = interactive_part(rest).len() as int;
                assert(s.last() == s[j]);
                assert(interactive_part(s) == interactive_part(rest).push(s.last()));
                assert(interactive_part(s)[k] == s[j]);
                assert(0 <= k < interactive_part(s).len() && interactive_part(s)[k] == s[j] && k
                    == kept_before(s, j));
            }
        }
        if forall|j: int| 0 <= j < s.len() ==> (#[trigger] s[j] is Sequence || s[j].interactive()) {
            assert(forall|j: int| 0 <= j < rest.len() ==> rest[j] == s[j]);
            assert(s[s.len() - 1] is Sequence || s[s.len() - 1].interactive());
            assert(s =~= rest.push(s.last()));
        }
    }
}

/// How many sequence definitions and interactive commands stand in `s` before place `j`.
pub open spec fn kept_before(s: Seq<AstV>, j: int) -> int
    decreases j,
{
    if j <= 0 || j > s.len() {
        0
    } else {
        kept_before(s, j - 1) + if s[j - 1] is Sequence || s[j - 1].interactive() {
            1int
        } else {
            0int
        }
    }
}

/// The count of kept nodes before a place does not change when nodes are added after it.
proof fn lemma_kept_before_prefix(s: Seq<AstV>, j: int)
    requires
        0 <= j < s.len(),
    ensures
        kept_before(s, j) == kept_before(s.drop_last(), j),
    decreases j,
{
    if j > 0 {
        assert(s.drop_last()[j - 1] == s[j - 1]);
        lemma_kept_before_prefix(s, j - 1);
    }
}

/// The kept nodes before the end are all that `interactive_part` keeps.
proof fn lemma_kept_before_len(s: Seq<AstV>)
    ensures
        kept_before(s, s.len() as int) == interactive_part(s).len(),
    decreases s.len(),
{
    if s.len() > 0 {
        let rest = s.drop_last();
        lemma_kept_before_len(rest);
        lemma_kept_before_prefix(s, rest.len() as int);
    }
}

/// The two rewrites that drop interactive commands give the same program.
pub proof fn law_remove_and_keep_agree(p: ProgramV)
    ensures
        RemoveInteractive.outcome(p) == KeepInteractive.outcome(p),
{
}

/// The program with the root's children replaced by `c`.
pub open spec fn with_root_children(p: ProgramV, c: Seq<AstV>) -> ProgramV {
    ProgramV { root: p.root.with_children(c), ..p }
}

/// Keeps the children of `root` that `keep_interactive` selects: with `false`, those that
/// are no interactive command; with `true`, sequence definitions and interactive commands.
fn filter_root<'m>(head: Program<'m>, keep_interactive: bool) -> (r: Program<'m>)
    requires
        head@.root.has_children(),
    ensures
        r@ == with_root_children(
            head@,
            if keep_interactive {
                interactive_part(head@.root.children())
            } else {
                without_interactive(head@.root.children())
            },
        ),
{
    let Program { root, tal, symbols } = head;
    let ghost rv = root@;
    let (children, kind, name) = match root {
        ASTNode::Root(v) => (v, 0u8, ""),
        ASTNode::Sequence(s, v) => (v, 1u8, s),
        ASTNode::Gap(v) => (v, 2u8, ""),
        _ => {
            proof {
                assert(false);
            }
            (Vec::new(), 0u8, "")
        },
    };
    let ghost cs = children@;
    proof {
        lemma_ast_views(cs);
    }
    assert(rv.children() == ast_views(cs));
    let ghost target = if keep_interactive {
        interactive_part(ast_views(cs))
    } else {
        without_interactive(ast_views(cs))
    };
    let mut kept: Vec<ASTNode<'m>> = Vec::new();
    for c in it: children.into_iter()
        invariant
            it.seq() == cs,
            forall|j: int| 0 <= j < cs.len() ==> ast_views(cs)[j] == ast_view(#[trigger] cs[j]),
            ast_views(cs).len() == cs.len(),
            ast_views(kept@) == if keep_interactive {
                interactive_part(ast_views(cs).take(it.index() as int))
            } else {
                without_interactive(ast_views(cs).take(it.index() as int))
            },
    {
        let ghost i = it.index();
        let ghost before = kept@;
        assert(ast_views(cs).take(i + 1).drop_last() =~= ast_views(cs).take(i as int));
        assert(ast_views(cs).take(i + 1).last() == ast_view(c));
        let keep = if keep_interactive {
            matches!(c, ASTNode::Sequence(_, _)) || c.is_interactive()
        } else {
            !c.is_interactive()
        };
        if keep {
            kept.push(c);
            proof {
                crate::sys::ast::lemma_ast_views_push(before, c);
            }
        }
    }
    assert(ast_views(cs).take(cs.len() as int) =~= ast_views(cs));
    let root = if kind == 0 {
        ASTNode::Root(kept)
    } else if kind == 1 {
        ASTNode::Sequence(name, kept)
    } else {
        ASTNode::Gap(kept)
    };
    Program { root, tal, symbols }
}

/// Drops the interactive commands from the top level of a program.
pub struct RemoveInteractive;

impl RemoveInteractive {
    pub fn new() -> Self {
        RemoveInteractive
    }
}

impl Transform for RemoveInteractive {
    open spec fn outcome(&self, p: ProgramV) -> Result<ProgramV, ErrorV> {
        Ok(with_root_children(p, without_interactive(p.root.children())))
    }

    fn mutate<'m>(&self, head: Program<'m>) -> (r: Result<Program<'m>, Error>) {
        Ok(filter_root(head, false))
    }
}

/// Drops the interactive commands from the top level of a program, as
/// [`RemoveInteractive`] does.
pub struct KeepInteractive;

impl KeepInteractive {
    pub fn new() -> Self {
        KeepInteractive
    }
}

impl Transform for KeepInteractive {
    open spec fn outcome(&self, p: ProgramV) -> Result<ProgramV, ErrorV> {
        Ok(with_root_children(p, without_interactive(p.root.children())))
    }

    fn mutate<'m>(&self, head: Program<'m>) -> (r: Result<Program<'m>, Error>) {
        Ok(filter_root(head, false))
    }
}

/// Keeps only the sequence definitions and the interactive commands at the top level.
pub struct InteractiveMode;

impl InteractiveMode {
    pub fn new() -> Self {
        InteractiveMode
    }
}

impl Transform for InteractiveMode {
    open spec fn outcome(&self, p: ProgramV) -> Result<ProgramV, ErrorV> {
        Ok(with_root_children(p, interactive_part(p.root.children())))
    }

    fn mutate<'m>(&self, head: Program<'m>) -> (r: Result<Program<'m>, Error>) {
        Ok(filter_root(head, true))
    }
}

} // verus!
