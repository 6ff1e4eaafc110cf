//! The current language: syntax tree, parser, transforms and interpreter.
pub mod ast;
pub mod grammar;
pub mod interpreter;
pub mod parser;
pub mod stdlib;
pub mod tokenize;
pub mod transforms;
pub mod warnings;

use vstd::prelude::*;
use crate::sys::ast::{ASTNode, AstV};

verus! {

/// A parsed program: its tree, the `tal` it first declares and the table of the
/// sequences it defines.
#[derive(Debug)]
pub struct Program<'p> {
    pub root: ASTNode<'p>,
    pub tal: usize,
    pub symbols: crate::sys::parser::SymbolTable<'p>,
}

/// What a program is.
pub struct ProgramV {
    pub root: AstV,
    pub tal: usize,
    pub symbols: Seq<(Seq<char>, usize)>,
}

impl<'p> View for Program<'p> {
    type V = ProgramV;

    open spec fn view(&self) -> ProgramV {
        ProgramV { root: self.root@, tal: self.tal, symbols: self.symbols.entries() }
    }
}

impl<'p> Program<'p> {
    /// A program with tree `root` that declares `tal` and defines the sequences of `symbols`.
    pub fn new(root: ASTNode<'p>, tal: usize, symbols: crate::sys::parser::SymbolTable<'p>) -> (r: Program<'p>)
        ensures
            r.root == root,
            r.tal == tal,
            r.symbols == symbols,
    {
        Program { root, tal, symbols }
    }
}

} // verus!

use crate::sys::ast::ast_view;
use crate::sys::transforms::{fails_with, Transform};
use crate::sys::warnings::{Error, ErrorV};
use crate::text::joined;

verus! {

/// The entries of a table of sequences: names with their definitions.
pub open spec fn entries_view<'a>(t: Seq<(&'a str, &'a ASTNode<'a>)>) -> Seq<(Seq<char>, AstV)> {
    t.map_values(|e: (&'a str, &'a ASTNode<'a>)| (e.0@, ast_view(*e.1)))
}

/// The definition of the first entry named `k`.
pub open spec fn lookup(es: Seq<(Seq<char>, AstV)>, k: Seq<char>) -> Option<AstV>
    decreases es.len(),
{
    if es.len() == 0 {
        None
    } else if es[0].0 == k {
        Some(es[0].1)
    } else {
        lookup(es.drop_first(), k)
    }
}

/// The table of sequences that the children `cs` define, in order; a name defined twice
/// is an error.
pub open spec fn table_of(cs: Seq<AstV>) -> Result<Seq<(Seq<char>, AstV)>, ErrorV>
    decreases cs.len(),
{
    if cs.len() == 0 {
        Ok(Seq::empty())
    } else {
        match table_of(cs.drop_last()) {
            Err(e) => Err(e),
            Ok(es) => match cs.last() {
                AstV::Sequence(s, c) => if lookup(es, s) is Some {
                    Err(ErrorV { pos: None, msg: "sequence redefined: "@ + s })
                } else {
                    Ok(es.push((s, AstV::Sequence(s, c))))
                },
                _ => Ok(es),
            },
        }
    }
}

/// Once a prefix of the children defines a name twice, so do the children.
pub proof fn lemma_table_error_stays(cs: Seq<AstV>, n: int)
    requires
        0 <= n <= cs.len(),
        table_of(cs.take(n)) is Err,
    ensures
        table_of(cs) == table_of(cs.take(n)),
    decreases cs.len() - n,
{
    if n == cs.len() {
        assert(cs.take(n) =~= cs);
    } else {
        assert(cs.take(n + 1).drop_last() =~= cs.take(n));
        lemma_table_error_stays(cs, n + 1);
    }
}

/// Looking up the entry named `k` in `table`.
pub(crate) fn find_entry<'a>(table: &Vec<(&'a str, &'a ASTNode<'a>)>, k: &str) -> (r: Option<
    &'a ASTNode<'a>,
>)
    ensures
        match lookup(entries_view(table@), k@) {
            Some(v) => r matches Some(n) && n@ == v,
            None => r is None,
        },
{
    let ghost es = entries_view(table@);
    let mut i: usize = 0;
    assert(es.subrange(0, es.len() as int) =~= es);
    while i < table.len()
        invariant
            i <= table.len(),
            es == entries_view(table@),
            lookup(es, k@) == lookup(es.subrange(i as int, es.len() as int), k@),
        decreases table.len() - i,
    {
        let (name, node) = table[i];
        assert(es.subrange(i as int, es.len() as int)[0] == (name@, ast_view(*node)));
        assert(es.subrange(i as int, es.len() as int).drop_first() =~= es.subrange(
            i + 1,
            es.len() as int,
        ));
        if crate::text::same_text(name, k) {
            return Some(node);
        }
        i = i + 1;
    }
    assert(es.subrange(i as int, es.len() as int) =~= Seq::<(Seq<char>, AstV)>::empty());
    None
}

/// Adds the entry `k` for `node` unless `k` is already there.
pub(crate) fn add_entry<'a>(table: &mut Vec<(&'a str, &'a ASTNode<'a>)>, k: &'a str, node: &'a ASTNode<'a>) -> (r: Result<(), Error>)
    ensures
        lookup(entries_view(old(table)@), k@) is Some ==> fails_with(r, ErrorV { pos: None, msg: "sequence redefined: "@ + k@ }) && final(table)@ == old(table)@,
        lookup(entries_view(old(table)@), k@) is None ==> r is Ok && entries_view(final(table)@) == entries_view(old(table)@).push((k@, node@)),
{
    if find_entry(table, k).is_some() {
        let msg = joined("sequence redefined: ", k);
        return Err(Error::global(msg.as_str()));
    }
    let ghost before = table@;
    table.push((k, node));
    assert(entries_view(table@) =~= entries_view(before).push((k@, node@)));
    Ok(())
}

/// The sequences that a program defines, by name.
#[derive(Debug)]
pub struct SymbolTable<'a> {
    table: Vec<(&'a str, &'a ASTNode<'a>)>,
}

impl<'a> SymbolTable<'a> {
    /// The entries, in the order of definition.
    pub closed spec fn entries(&self) -> Seq<(Seq<char>, AstV)> {
        entries_view(self.table@)
    }

    /// The table of the sequences defined among the children of `root`.
    pub fn new(root: &'a ASTNode<'a>) -> (r: Result<Self, Error>)
        requires
            root@.has_children(),
        ensures
            match table_of(root@.children()) {
                Ok(es) => r matches Ok(t) && t.entries() == es,
                Err(e) => fails_with(r, e),
            },
    {
        let mut ret = SymbolTable { table: Vec::new() };
        let children = root.get_children();
        let ghost cs = root@.children();
        assert(ret.entries() =~= Seq::<(Seq<char>, AstV)>::empty());
        assert(cs.take(0) =~= Seq::<AstV>::empty());
        proof {
            crate::sys::ast::lemma_ast_views(children@);
        }
        let mut i: usize = 0;
        while i < children.len()
            invariant
                i <= children.len(),
                cs == crate::sys::ast::ast_views(children@),
                cs == root@.children(),
                cs.len() == children.len(),
                forall|j: int| 0 <= j < children.len() ==> cs[j] == ast_view(#[trigger] children@[j]),
                table_of(cs.take(i as int)) == Ok::<Seq<(Seq<char>, AstV)>, ErrorV>(ret.entries()),
            decreases children.len() - i,
        {
            let child = &children[i];
            assert(cs.take(i + 1).drop_last() =~= cs.take(i as int));
            assert(cs.take(i + 1).last() == child@);
            match child {
                ASTNode::Sequence(s, _) => {
                    let ghost before = ret.entries();
                    match ret.insert(s, child) {
                        Ok(()) => {},
                        Err(e) => {
                            proof {
                                assert(lookup(before, s@) is Some);
                                assert(child@ matches AstV::Sequence(n, _) && n == s@);
                                assert(table_of(cs.take(i + 1)) == Err::<Seq<(Seq<char>, AstV)>, ErrorV>(ErrorV { pos: None, msg: "sequence redefined: "@ + s@ }));
                                lemma_table_error_stays(cs, i + 1);
                            }
                            return Err(e);
                        },
                    }
                },
                _ => {},
            };
            i = i + 1;
        }
        assert(cs.take(cs.len() as int) =~= cs);
        Ok(ret)
    }

    fn insert(&mut self, k: &'a str, idx: &'a ASTNode<'a>) -> (r: Result<(), Error>)
        ensures
            lookup(old(self).entries(), k@) is Some ==> fails_with(r, ErrorV { pos: None, msg: "sequence redefined: "@ + k@ }) && final(self).entries() == old(self).entries(),
            lookup(old(self).entries(), k@) is None ==> r is Ok && final(self).entries() == old(self).entries().push((k@, idx@)),
    {
        add_entry(&mut self.table, k, idx)
    }

    /// The entries themselves.
    pub(crate) fn into_entries(self) -> (r: Vec<(&'a str, &'a ASTNode<'a>)>)
        ensures
            entries_view(r@) == self.entries(),
    {
        self.table
    }

    /// The definition of the sequence named `k`.
    pub fn get(&self, k: &'a str) -> (r: Result<&'a ASTNode<'a>, Error>)
        ensures
            match lookup(self.entries(), k@) {
                Some(v) => r matches Ok(n) && n@ == v,
                None => fails_with(r, ErrorV { pos: None, msg: "undefined sequence: "@ + k@ }),
            },
    {
        match find_entry(&self.table, k) {
            Some(n) => Ok(n),
            None => {
                let msg = joined("undefined sequence: ", k);
                Err(Error::global(msg.as_str()))
            },
        }
    }
}

} // verus!

verus! {

/// What running the rewrites `stages` in order gives for `p`; `None` where one fails or
/// is handed a program whose root holds no children.
pub open spec fn run_stages<'p>(stages: Seq<&'p dyn Transform>, p: ProgramV) -> Option<ProgramV>
    decreases stages.len(),
{
    if stages.len() == 0 {
        Some(p)
    } else if !p.root.has_children() {
        None
    } else {
        match stages[0].outcome(p) {
            Ok(q) => run_stages(stages.drop_first(), q),
            Err(_) => None,
        }
    }
}

/// Runs the rewrites `stages` in order on `input`.
pub(crate) fn run_pipeline<'p>(stages: &Vec<&'p dyn Transform>, input: Program<'p>) -> (r: Program<'p>)
    requires
        run_stages(stages@, input@) is Some,
    ensures
        r@ == run_stages(stages@, input@)->0,
{
    let ghost first = input@;
    let mut input = input;
    let mut i: usize = 0;
    assert(stages@.skip(0) =~= stages@);
    while i < stages.len()
        invariant
            i <= stages.len(),
            run_stages(stages@.skip(i as int), input@) == run_stages(stages@, first),
            run_stages(stages@, first) is Some,
        decreases stages.len() - i,
    {
        let stage = stages[i];
        assert(stages@.skip(i as int)[0] == stage);
        assert(stages@.skip(i as int).drop_first() =~= stages@.skip(i + 1));
        input = match stage.mutate(input) {
            Ok(p) => p,
            Err(_) => {
                proof {
                    assert(false);
                }
                unreached()
            },
        };
        i = i + 1;
    }
    assert(stages@.skip(i as int) =~= Seq::<&'p dyn Transform>::empty());
    input
}

/// A chain of rewrites that a program goes through before it is run.
pub struct Pipeline<'p> {
    transform_path: Vec<&'p dyn Transform>,
}

impl<'p> Pipeline<'p> {
    /// The rewrites, in order.
    pub closed spec fn stages(&self) -> Seq<&'p dyn Transform> {
        self.transform_path@
    }

    /// A pipeline without rewrites.
    pub fn new() -> (r: Self)
        ensures
            r.stages() == Seq::<&'p dyn Transform>::empty(),
    {
        Pipeline { transform_path: Vec::new() }
    }

    /// Adds a rewrite at the end.
    pub fn add_stage(&mut self, stage: &'p dyn Transform)
        ensures
            final(self).stages() == old(self).stages().push(stage),
    {
        self.transform_path.push(stage);
    }

    /// Runs the rewrites in order on `input`.
    pub fn ingest(&self, input: Program<'p>) -> (r: Result<Program<'p>, Error>)
        requires
            run_stages(self.stages(), input@) is Some,
        ensures
            r matches Ok(x) && x@ == run_stages(self.stages(), input@)->0,
    {
        Ok(run_pipeline(&self.transform_path, input))
    }
}

/// Where programs are run: a pipeline of rewrites.
pub struct Environment<'p> {
    pipe: Pipeline<'p>,
}

impl<'p> Environment<'p> {
    /// An environment with the rewrites of `p`.
    pub fn new(p: Pipeline<'p>) -> (r: Self)
        ensures
            r.pipeline() == p,
    {
        Self { pipe: p }
    }

    /// The pipeline of rewrites.
    pub closed spec fn pipeline(&self) -> Pipeline<'p> {
        self.pipe
    }

    /// Running a tree in this environment does nothing yet.
    pub fn interpret(root: ASTNode<'p>) {
    }
}

} // verus!
