//! The interpreter: runs a program and counts its matras and akshara runs.
//!
//! The interpreter builds its own table of sequences as it goes: a sequence can be
//! called only after its definition.
use vstd::prelude::*;
use crate::sys::ast::{ast_view, ast_views, lemma_ast_views, ASTNode, AstV};
use crate::sys::grammar::{figures_only, law_parsed_program_shape, sequence_body, top_level, top_node};
use crate::sys::parser::parse_tokens;
use crate::tokenize::SpanV;
use crate::sys::stdlib::mat::{gap_figures, global_error, seq_count, seq_count_m, seq_figures, Count};
use crate::sys::transforms::fails_with;
use crate::sys::warnings::{Error, ErrorV};
use crate::sys::{
    add_entry, entries_view, find_entry, lookup, run_pipeline, run_stages, table_of, Program,
    ProgramV,
};
use crate::sys::transforms::Transform;
use crate::text::joined;

verus! {

/// What running a program gives: its matras, and its akshara runs, `(matras, nadai)`
/// pairs whose aksharas add up to its akshara count (which starts from zero aksharas
/// in nadai 4).
#[derive(Debug)]
pub struct InterpreterResult {
    total_mat_count: usize,
    aks_terms: Vec<(usize, usize)>,
}

impl InterpreterResult {
    /// The matras of the program.
    pub closed spec fn matras(&self) -> usize {
        self.total_mat_count
    }

    /// The akshara runs of the program.
    pub closed spec fn runs(&self) -> Seq<(usize, usize)> {
        self.aks_terms@
    }

    /// The matras of the program.
    pub fn total_mat_count(&self) -> (r: usize)
        ensures
            r == self.matras(),
    {
        self.total_mat_count
    }

    /// The akshara runs of the program, in order.
    pub fn aks_terms(&self) -> (r: &Vec<(usize, usize)>)
        ensures
            r@ == self.runs(),
    {
        &self.aks_terms
    }
}

/// The interpreter's state between two top-level nodes.
pub struct State {
    pub talam: Option<usize>,
    pub nadai: usize,
    pub mat: int,
    pub terms: Seq<(usize, usize)>,
    pub symbols: Seq<(Seq<char>, AstV)>,
}

/// The outcome of a run.
pub enum Run {
    Done(State),
    Failed(ErrorV),
    TooLarge,
}

/// The state after adding `count` matras in the current nadai; `TooLarge` where the
/// total would not fit in a `usize`.
pub open spec fn add_count(st: State, count: int) -> Option<State> {
    if st.mat + count > usize::MAX {
        None
    } else {
        Some(State { mat: st.mat + count, terms: st.terms.push((count as usize, st.nadai)), ..st })
    }
}

/// Running the top-level nodes `cs` from `i` on, from state `st`.
pub open spec fn run_from(cs: Seq<AstV>, i: int, st: State) -> Run
    decreases cs.len() - i,
{
    if i < 0 || i >= cs.len() {
        Run::Done(st)
    } else {
        match cs[i] {
            AstV::Tal(u) => if st.talam is None {
                run_from(cs, i + 1, State { talam: Some(u), ..st })
            } else {
                Run::Failed(global_error("cannot redeclare tal param"@))
            },
            AstV::Nad(u) => run_from(cs, i + 1, State { nadai: u, ..st }),
            AstV::Sequence(s, c) => if lookup(st.symbols, s) is Some {
                Run::Failed(global_error("sequence redefined: "@ + s))
            } else {
                run_from(cs, i + 1, State { symbols: st.symbols.push((s, cs[i])), ..st })
            },
            AstV::Figure(u) => match add_count(st, u as int) {
                Some(next) => run_from(cs, i + 1, next),
                None => Run::TooLarge,
            },
            AstV::Gap(v) => if st.talam is None {
                Run::Failed(global_error("tal param left undeclared"@))
            } else {
                match gap_figures(v, 0, 0) {
                    Count::Value(c) => match add_count(st, c) {
                        Some(next) => run_from(cs, i + 1, next),
                        None => Run::TooLarge,
                    },
                    Count::Failed(_) => Run::Failed(global_error("some unidentified error"@)),
                    Count::TooLarge => Run::TooLarge,
                }
            },
            AstV::FnCall(f) => if st.talam is None {
                Run::Failed(global_error("tal param left undeclared"@))
            } else {
                match lookup(st.symbols, f) {
                    None => Run::Failed(global_error("undefined sequence: "@ + f)),
                    Some(t) => match seq_count(t) {
                        Count::Value(c) => match add_count(st, c) {
                            Some(next) => run_from(cs, i + 1, next),
                            None => Run::TooLarge,
                        },
                        Count::Failed(e) => Run::Failed(e),
                        Count::TooLarge => Run::TooLarge,
                    },
                }
            },
            _ => run_from(cs, i + 1, st),
        }
    }
}

/// The state before the first node: no `tal` yet, nadai 4, nothing counted or defined.
pub open spec fn initial_state() -> State {
    State { talam: None, nadai: 4, mat: 0, terms: Seq::empty(), symbols: Seq::empty() }
}

/// Running a tree whose root holds children.
pub open spec fn run_tree(root: AstV) -> Run {
    run_from(root.children(), 0, initial_state())
}

/// Whether the interpreter came out as `r` for the run `run`.
pub open spec fn interpreted(r: Result<InterpreterResult, Error>, run: Run) -> bool {
    match run {
        Run::Done(st) => r matches Ok(x) && x.matras() == st.mat && x.runs() == st.terms,
        Run::Failed(e) => fails_with(r, e),
        Run::TooLarge => true,
    }
}

/// The sequences that the interpreter has met, by name.
#[derive(Debug)]
pub struct SymbolTable<'a> {
    table: Vec<(&'a str, &'a ASTNode<'a>)>,
}

impl<'a> SymbolTable<'a> {
    /// The entries, in the order of definition.
    pub closed spec fn entries(&self) -> Seq<(Seq<char>, AstV)> {
        entries_view(self.table@)
    }

    /// The table of the sequences defined among the children of `root`.
    pub fn new(root: &'a ASTNode<'a>) -> (r: Result<Self, Error>)
        requires
            root@.has_children(),
        ensures
            match table_of(root@.children()) {
                Ok(es) => r matches Ok(t) && t.entries() == es,
                Err(e) => fails_with(r, e),
            },
    {
        match crate::sys::SymbolTable::new(root) {
            Ok(t) => Ok(SymbolTable { table: t.into_entries() }),
            Err(e) => Err(e),
        }
    }

    fn insert(&mut self, k: &'a str, idx: &'a ASTNode<'a>) -> (r: Result<(), Error>)
        ensures
            lookup(old(self).entries(), k@) is Some ==> fails_with(
                r,
                ErrorV { pos: None, msg: "sequence redefined: "@ + k@ },
            ) && final(self).entries() == old(self).entries(),
            lookup(old(self).entries(), k@) is None ==> r is Ok && final(self).entries() == old(
                self,
            ).entries().push((k@, idx@)),
    {
        add_entry(&mut self.table, k, idx)
    }

    /// The definition of the sequence named `k`.
    pub fn get(&self, k: &'a str) -> (r: Result<&'a ASTNode<'a>, Error>)
        ensures
            match lookup(self.entries(), k@) {
                Some(v) => r matches Ok(n) && n@ == v,
                None => fails_with(r, ErrorV { pos: None, msg: "undefined sequence: "@ + k@ }),
            },
    {
        match find_entry(&self.table, k) {
            Some(n) => Ok(n),
            None => {
                let msg = joined("undefined sequence: ", k);
                Err(Error::global(msg.as_str()))
            },
        }
    }
}

impl<'s> Default for SymbolTable<'s> {
    fn default() -> (r: Self)
        ensures
            r.entries() == Seq::<(Seq<char>, AstV)>::empty(),
    {
        let r = SymbolTable { table: Vec::new() };
        assert(r.entries() =~= Seq::<(Seq<char>, AstV)>::empty());
        r
    }
}

/// The count remembered for `f` among `memo`: that of the first entry named `f`, or
/// `None` where no entry is.
fn memo_get<'a>(memo: &Vec<(&'a str, usize)>, f: &str) -> (r: Option<usize>)
    ensures
        r is None <==> (forall|j: int| 0 <= j < memo.len() ==> (#[trigger] memo@[j]).0@ != f@),
        r matches Some(c) ==> exists|j: int|
            0 <= j < memo.len() && (#[trigger] memo@[j]).0@ == f@ && memo@[j].1 == c && (forall|k: int|
                0 <= k < j ==> (#[trigger] memo@[k]).0@ != f@),
{
    let mut i: usize = 0;
    while i < memo.len()
        invariant
            i <= memo.len(),
            forall|k: int| 0 <= k < i ==> (#[trigger] memo@[k]).0@ != f@,
        decreases memo.len() - i,
    {
        if crate::text::same_text(memo[i].0, f) {
            return Some(memo[i].1);
        }
        i = i + 1;
    }
    None
}

/// Runs a tree whose root holds children.
#[verifier::loop_isolation(false)]
fn interpret<'r>(root: &ASTNode<'r>) -> (r: Result<InterpreterResult, Error>)
    requires
        root@.has_children(),
        !(run_tree(root@) is TooLarge),
    ensures
        interpreted(r, run_tree(root@)),
{
    let children = root.get_children();
    let ghost cs = root@.children();
    proof {
        lemma_ast_views(children@);
    }
    let mut memo: Vec<(&str, usize)> = Vec::new();
    let mut symbols: SymbolTable = SymbolTable::default();
    let mut talam: Option<usize> = None;
    let mut nadai: usize = 4;
    let mut mat_count: usize = 0;
    let mut aks_terms: Vec<(usize, usize)> = Vec::new();
    let mut i: usize = 0;
    while i < children.len()
        invariant
            i <= children.len(),
            cs == ast_views(children@),
            cs == root@.children(),
            cs.len() == children.len(),
            forall|k: int| 0 <= k < children.len() ==> cs[k] == ast_view(#[trigger] children@[k]),
            run_from(
                cs,
                i as int,
                State {
                    talam,
                    nadai,
                    mat: mat_count as int,
                    terms: aks_terms@,
                    symbols: symbols.entries(),
                },
            ) == run_tree(root@),
            !(run_tree(root@) is TooLarge),
            forall|j: int|
                0 <= j < memo.len() ==> (lookup(symbols.entries(), #[trigger] memo@[j].0@) matches Some(t)
                    && seq_count(t) == Count::Value(memo@[j].1 as int)),
        decreases children.len() - i,
    {
        let child = &children[i];
        assert(cs[i as int] == child@);
        let ghost before = symbols.entries();
        match child {
            ASTNode::Tal(u) => {
                if talam.is_none() {
                    talam = Some(*u);
                } else {
                    return Err(Error::global("cannot redeclare tal param"));
                }
            },
            ASTNode::Nad(u) => {
                nadai = *u;
            },
            ASTNode::Sequence(s, _) => {
                match symbols.insert(s, child) {
                    Ok(()) => {
                        assert forall|j: int| 0 <= j < memo.len() implies (lookup(
                            symbols.entries(),
                            #[trigger] memo@[j].0@,
                        ) matches Some(t) && seq_count(t) == Count::Value(memo@[j].1 as int)) by {
                            lemma_lookup_push(before, memo@[j].0@, (s@, child@));
                        }
                    },
                    Err(e) => {
                        return Err(e);
                    },
                }
            },
            ASTNode::Figure(u) => {
                mat_count = mat_count + *u;
                aks_terms.push((*u, nadai));
            },
            ASTNode::Gap(v) => {
                if talam.is_none() {
                    return Err(Error::global("tal param left undeclared"));
                }
                let mut count: usize = 0;
                let ghost vs = ast_views(v@);
                proof {
                    lemma_ast_views(v@);
                }
                let mut j: usize = 0;
                while j < v.len()
                    invariant
                        j <= v.len(),
                        vs == ast_views(v@),
                        vs.len() == v.len(),
                        forall|k: int| 0 <= k < v.len() ==> vs[k] == ast_view(#[trigger] v@[k]),
                        gap_figures(vs, j as int, count as int) == gap_figures(vs, 0, 0),
                        !(gap_figures(vs, 0, 0) is TooLarge),
                    decreases v.len() - j,
                {
                    match &v[j] {
                        ASTNode::Figure(u) => {
                            count = count + *u;
                        },
                        _ => {
                            return Err(Error::global("some unidentified error"));
                        },
                    }
                    j = j + 1;
                }
                mat_count = mat_count + count;
                aks_terms.push((count, nadai));
            },
            ASTNode::FnCall(f) => {
                if talam.is_none() {
                    return Err(Error::global("tal param left undeclared"));
                }
                let count: usize;
                match memo_get(&memo, f) {
                    Some(c) => {
                        count = c;
                    },
                    None => {
                        let target = match symbols.get(f) {
                            Ok(t) => t,
                            Err(e) => {
                                return Err(e);
                            },
                        };
                        count = match seq_count_m(target) {
                            Ok(c) => c,
                            Err(e) => {
                                return Err(e);
                            },
                        };
                        memo.push((f, count));
                    },
                }
                mat_count = mat_count + count;
                aks_terms.push((count, nadai));
            },
            _ => {},
        }
        i = i + 1;
    }
    Ok(InterpreterResult { total_mat_count: mat_count, aks_terms })
}

/// Looking a name up after one more entry: the earlier entries win.
pub proof fn lemma_lookup_push(es: Seq<(Seq<char>, AstV)>, k: Seq<char>, e: (Seq<char>, AstV))
    ensures
        lookup(es, k) is Some ==> lookup(es.push(e), k) == lookup(es, k),
        lookup(es, k) is None ==> lookup(es.push(e), k) == if e.0 == k {
            Some(e.1)
        } else {
            None
        },
    decreases es.len(),
{
    if es.len() > 0 {
        assert(es.push(e).drop_first() =~= es.drop_first().push(e));
        lemma_lookup_push(es.drop_first(), k, e);
    } else {
        assert(es.push(e).drop_first() =~= Seq::<(Seq<char>, AstV)>::empty());
        assert(es.push(e)[0] == e);
        assert(lookup(Seq::<(Seq<char>, AstV)>::empty(), k) is None);
    }
}

/// The matras of the akshara runs `terms`, added up.
pub open spec fn terms_matras(terms: Seq<(usize, usize)>) -> int
    decreases terms.len(),
{
    if terms.len() == 0 {
        0
    } else {
        terms_matras(terms.drop_last()) + terms.last().0
    }
}

/// A gap of figures never counts as illegal.
proof fn lemma_gap_figures_counts(g: Seq<AstV>, i: int, acc: int)
    requires
        figures_only(g),
    ensures
        !(gap_figures(g, i, acc) is Failed),
        gap_figures(g, i, acc) matches Count::Value(v) ==> v >= acc,
    decreases g.len() - i,
{
    if 0 <= i < g.len() {
        assert(g[i] is Figure);
        lemma_gap_figures_counts(g, i + 1, acc + g[i]->Figure_0);
    }
}

/// A body of figures and gaps of figures never counts as illegal.
proof fn lemma_seq_figures_counts(c: Seq<AstV>, i: int, acc: int)
    requires
        sequence_body(c),
    ensures
        !(seq_figures(c, i, acc) is Failed),
        seq_figures(c, i, acc) matches Count::Value(v) ==> v >= acc,
    decreases c.len() - i,
{
    if 0 <= i < c.len() {
        assert(c[i] is Figure || (c[i] is Gap && figures_only(c[i].children())));
        match c[i] {
            AstV::Figure(u) => lemma_seq_figures_counts(c, i + 1, acc + u),
            AstV::Gap(sub) => {
                lemma_gap_figures_counts(sub, 0, acc);
                if let Count::Value(a) = gap_figures(sub, 0, acc) {
                    lemma_seq_figures_counts(c, i + 1, a);
                }
            },
            _ => {},
        }
    }
}

/// What `lookup` finds is the definition of one of the entries.
proof fn lemma_lookup_finds(es: Seq<(Seq<char>, AstV)>, k: Seq<char>)
    ensures
        lookup(es, k) matches Some(t) ==> exists|a: int| 0 <= a < es.len() && #[trigger] es[a].1 == t,
    decreases es.len(),
{
    if es.len() > 0 && es[0].0 != k {
        lemma_lookup_finds(es.drop_first(), k);
        if let Some(t) = lookup(es, k) {
            let a = choose|a: int| 0 <= a < es.drop_first().len() && #[trigger] es.drop_first()[a].1 == t;
            assert(es[a + 1] == es.drop_first()[a]);
        }
    }
}

/// The errors that a run can meet in a program of the grammar's shape.
pub open spec fn run_time_error(e: ErrorV) -> bool {
    e == global_error("cannot redeclare tal param"@) || exists|f: Seq<char>|
        e == global_error("undefined sequence: "@ + f)
}

/// Running a well-formed top level, with `tal` declared and the sequences met so far
/// well formed and none of those still to come defined yet, meets only a second `tal`
/// or a call of a sequence not yet defined; and what it counts is what its runs add up to.
proof fn lemma_run_errors(cs: Seq<AstV>, i: int, st: State)
    requires
        top_level(cs),
        0 <= i <= cs.len(),
        st.talam is Some,
        0 <= st.mat,
        st.mat == terms_matras(st.terms),
        forall|a: int| 0 <= a < st.symbols.len() ==> (#[trigger] st.symbols[a]).1 is Sequence
            && sequence_body(st.symbols[a].1.children()),
        forall|j: int|
            i <= j < cs.len() && #[trigger] cs[j] is Sequence ==> lookup(st.symbols, cs[j]->Sequence_0)
                is None,
    ensures
        run_from(cs, i, st) matches Run::Failed(e) ==> run_time_error(e),
        run_from(cs, i, st) matches Run::Done(fin) ==> fin.mat == terms_matras(fin.terms),
    decreases cs.len() - i,
{
    if i < cs.len() {
        assert(top_node(cs[i]));
        let added = |c: int| State { mat: st.mat + c, terms: st.terms.push((c as usize, st.nadai)), ..st };
        match cs[i] {
            AstV::Tal(u) => {},
            AstV::Nad(u) => {
                lemma_run_errors(cs, i + 1, State { nadai: u, ..st });
            },
            AstV::Sequence(s, c) => {
                let next = State { symbols: st.symbols.push((s, cs[i])), ..st };
                assert forall|j: int| i + 1 <= j < cs.len() && #[trigger] cs[j] is Sequence implies lookup(
                    next.symbols,
                    cs[j]->Sequence_0,
                ) is None by {
                    assert(cs[j]->Sequence_0 != s);
                    lemma_lookup_push(st.symbols, cs[j]->Sequence_0, (s, cs[i]));
                }
                assert forall|a: int| 0 <= a < next.symbols.len() implies (#[trigger] next.symbols[a]).1 is Sequence
                    && sequence_body(next.symbols[a].1.children()) by {
                    if a < st.symbols.len() {
                        assert(next.symbols[a] == st.symbols[a]);
                    }
                }
                lemma_run_errors(cs, i + 1, next);
            },
            AstV::Figure(u) => {
                if st.mat + u <= usize::MAX {
                    let next = added(u as int);
                    assert(next.terms.drop_last() =~= st.terms);
                    lemma_run_errors(cs, i + 1, next);
                }
            },
            AstV::Gap(v) => {
                lemma_gap_figures_counts(v, 0, 0);
                if let Count::Value(c) = gap_figures(v, 0, 0) {
                    if st.mat + c <= usize::MAX {
                        let next = added(c);
                        assert(next.terms.drop_last() =~= st.terms);
                        lemma_run_errors(cs, i + 1, next);
                    }
                }
            },
            AstV::FnCall(f) => {
                lemma_lookup_finds(st.symbols, f);
                if let Some(t) = lookup(st.symbols, f) {
                    let a = choose|a: int| 0 <= a < st.symbols.len() && #[trigger] st.symbols[a].1 == t;
                    assert(t is Sequence && sequence_body(t.children()));
                    lemma_seq_figures_counts(t->Sequence_1, 0, 0);
                    if let Count::Value(c) = seq_count(t) {
                        if st.mat + c <= usize::MAX {
                            let next = added(c);
                            assert(next.terms.drop_last() =~= st.terms);
                            lemma_run_errors(cs, i + 1, next);
                        }
                    }
                }
            },
            _ => {},
        }
    }
}

/// Running a program that parsed meets no error but a second `tal` or a call of a
/// sequence not yet defined (its blocks hold only what can be counted, its `tal` comes
/// first, and no name is defined twice); and the matras it counts are those of its
/// akshara runs added up.
pub proof fn law_parsed_program_runs(ts: Seq<SpanV>)
    requires
        ts.len() <= usize::MAX,
    ensures
        parse_tokens(ts) matches Ok(p) ==> {
            &&& run_tree(p.root) matches Run::Failed(e) ==> run_time_error(e)
            &&& run_tree(p.root) matches Run::Done(fin) ==> fin.mat == terms_matras(fin.terms)
        },
{
    law_parsed_program_shape(ts);
    if let Ok(p) = parse_tokens(ts) {
        let cs = p.root.children();
        let st = State { talam: Some(p.tal), ..initial_state() };
        assert(st.terms =~= Seq::<(usize, usize)>::empty());
        assert forall|j: int| 1 <= j < cs.len() && #[trigger] cs[j] is Sequence implies lookup(
            st.symbols,
            cs[j]->Sequence_0,
        ) is None by {}
        lemma_run_errors(cs, 1, st);
        assert(run_tree(p.root) == run_from(cs, 1, st));
    }
}

/// The nadai in force after the nodes `cs` from `i` on, starting from nadai `n`: that of
/// the last `nad` among them, or `n`.
pub open spec fn nadai_from(cs: Seq<AstV>, i: int, n: usize) -> usize
    decreases cs.len() - i,
{
    if i < 0 || i >= cs.len() {
        n
    } else {
        match cs[i] {
            AstV::Nad(u) => nadai_from(cs, i + 1, u),
            _ => nadai_from(cs, i + 1, n),
        }
    }
}

/// Running `cs` with one more node at the end runs `cs` first: where that fails, so does
/// the longer run; where it ends, the extra node runs from where it ended. The nadai
/// where it ends is that of the last `nad`.
proof fn lemma_run_push(cs: Seq<AstV>, i: int, st: State, x: AstV)
    requires
        0 <= i <= cs.len(),
    ensures
        run_from(cs.push(x), i, st) == match run_from(cs, i, st) {
            Run::Done(fin) => run_from(cs.push(x), cs.len() as int, fin),
            other => other,
        },
        run_from(cs, i, st) matches Run::Done(fin) ==> fin.nadai == nadai_from(cs, i, st.nadai),
    decreases cs.len() - i,
{
    if i < cs.len() {
        let longer = cs.push(x);
        assert(longer[i] == cs[i]);
        match cs[i] {
            AstV::Tal(u) => {
                if st.talam is None {
                    lemma_run_push(cs, i + 1, State { talam: Some(u), ..st }, x);
                }
            },
            AstV::Nad(u) => {
                lemma_run_push(cs, i + 1, State { nadai: u, ..st }, x);
            },
            AstV::Sequence(s, c) => {
                if !(lookup(st.symbols, s) is Some) {
                    lemma_run_push(cs, i + 1, State { symbols: st.symbols.push((s, cs[i])), ..st }, x);
                }
            },
            AstV::Figure(u) => {
                if let Some(next) = add_count(st, u as int) {
                    lemma_run_push(cs, i + 1, next, x);
                }
            },
            AstV::Gap(v) => {
                if st.talam is Some {
                    if let Count::Value(c) = gap_figures(v, 0, 0) {
                        if let Some(next) = add_count(st, c) {
                            lemma_run_push(cs, i + 1, next, x);
                        }
                    }
                }
            },
            AstV::FnCall(f) => {
                if st.talam is Some {
                    if let Some(t) = lookup(st.symbols, f) {
                        if let Count::Value(c) = seq_count(t) {
                            if let Some(next) = add_count(st, c) {
                                lemma_run_push(cs, i + 1, next, x);
                            }
                        }
                    }
                }
            },
            _ => {
                lemma_run_push(cs, i + 1, st, x);
            },
        }
    }
}

/// Appending a figure to a program that runs adds its value to the matras and one run
/// of that many matras in the nadai then in force (that of the last `nad`, or 4); where
/// the total would pass `usize::MAX` the run is too large. A program that fails fails
/// the same with the figure appended.
pub proof fn law_appending_a_figure(cs: Seq<AstV>, u: usize)
    ensures
        run_tree(AstV::Root(cs)) matches Run::Done(st) ==> run_tree(AstV::Root(cs.push(AstV::Figure(u))))
            == if st.mat + u > usize::MAX {
            Run::TooLarge
        } else {
            Run::Done(
                State {
                    mat: st.mat + u,
                    terms: st.terms.push((u, nadai_from(cs, 0, 4))),
                    ..st
                },
            )
        },
        run_tree(AstV::Root(cs)) matches Run::Failed(e) ==> run_tree(AstV::Root(cs.push(AstV::Figure(u))))
            == Run::Failed(e),
{
    let x = AstV::Figure(u);
    lemma_run_push(cs, 0, initial_state(), x);
    assert(AstV::Root(cs).children() == cs);
    assert(AstV::Root(cs.push(x)).children() == cs.push(x));
    if let Run::Done(fin) = run_from(cs, 0, initial_state()) {
        let longer = cs.push(x);
        assert(longer[cs.len() as int] == x);
        assert(run_from(longer, cs.len() + 1int, match add_count(fin, u as int) {
            Some(n) => n,
            None => fin,
        }) == Run::Done(match add_count(fin, u as int) {
            Some(n) => n,
            None => fin,
        }));
    }
}

/// Appending a call of a sequence that a running program has defined adds the
/// sequence's matras to the total and one run of that many matras in the nadai then in
/// force, that of the last `nad` (or 4), exactly as a figure of that value would.
pub proof fn law_appending_a_call(cs: Seq<AstV>, f: Seq<char>)
    ensures
        run_tree(AstV::Root(cs)) matches Run::Done(st) ==> (st.talam is Some ==> (lookup(st.symbols, f) matches Some(
            t,
        ) ==> (seq_count(t) matches Count::Value(c) ==> (st.mat + c <= usize::MAX ==> run_tree(
            AstV::Root(cs.push(AstV::FnCall(f))),
        ) == Run::Done(
            State {
                mat: st.mat + c,
                terms: st.terms.push((c as usize, nadai_from(cs, 0, 4))),
                ..st
            },
        ))))),
{
    let x = AstV::FnCall(f);
    lemma_run_push(cs, 0, initial_state(), x);
    assert(AstV::Root(cs).children() == cs);
    assert(AstV::Root(cs.push(x)).children() == cs.push(x));
    if let Run::Done(fin) = run_from(cs, 0, initial_state()) {
        let longer = cs.push(x);
        assert(longer[cs.len() as int] == x);
        if let Some(t) = lookup(fin.symbols, f) {
            if let Count::Value(c) = seq_count(t) {
                if fin.talam is Some && fin.mat + c <= usize::MAX {
                    let next = add_count(fin, c)->0;
                    assert(run_from(longer, cs.len() + 1int, next) == Run::Done(next));
                }
            }
        }
    }
}

/// The environment runs the interpreter on what its rewrites give, once each and in
/// order: where the rewrites of `stages` turn `p` into `q`, the environment's run is the
/// run of `q`'s tree.
pub proof fn law_environment_runs_the_rewritten_program<'p>(stages: Seq<&'p dyn Transform>, p: ProgramV, q: ProgramV)
    requires
        run_stages(stages, p) == Some(q),
    ensures
        environment_run(stages, p) == run_tree(q.root),
{
}

/// A chain of rewrites that a program goes through before it is run.
pub struct Pipeline<'p> {
    transform_path: Vec<&'p dyn Transform>,
}

impl<'p> Pipeline<'p> {
    /// The rewrites, in order.
    pub closed spec fn stages(&self) -> Seq<&'p dyn Transform> {
        self.transform_path@
    }

    /// A pipeline without rewrites.
    pub fn new() -> (r: Self)
        ensures
            r.stages() == Seq::<&'p dyn Transform>::empty(),
    {
        Pipeline { transform_path: Vec::new() }
    }

    /// Adds a rewrite at the end.
    pub fn add_stage(&mut self, stage: &'p dyn Transform)
        ensures
            final(self).stages() == old(self).stages().push(stage),
    {
        self.transform_path.push(stage);
    }

    /// Runs the rewrites in order on `input`.
    pub fn ingest(&self, input: Program<'p>) -> (r: Result<Program<'p>, Error>)
        requires
            run_stages(self.stages(), input@) is Some,
        ensures
            r matches Ok(x) && x@ == run_stages(self.stages(), input@)->0,
    {
        Ok(run_pipeline(&self.transform_path, input))
    }
}

/// Where programs are run: a pipeline of rewrites, then the interpreter.
pub struct Environment<'p> {
    stages: Pipeline<'p>,
}

/// What the environment with rewrites `stages` gives for a program: the run of the
/// rewritten tree.
pub open spec fn environment_run<'p>(stages: Seq<&'p dyn Transform>, p: ProgramV) -> Run {
    run_tree(run_stages(stages, p)->0.root)
}

impl<'p> Environment<'p> {
    /// An environment with the rewrites of `p`.
    pub fn new(p: Pipeline<'p>) -> (r: Self)
        ensures
            r.stages() == p.stages(),
    {
        Self { stages: p }
    }

    /// The rewrites, in order.
    pub closed spec fn stages(&self) -> Seq<&'p dyn Transform> {
        self.stages.stages()
    }

    /// Rewrites a program, then runs it.
    pub fn interpret(&self, root: Program<'p>) -> (r: Result<InterpreterResult, Error>)
        requires
            run_stages(self.stages(), root@) is Some,
            run_stages(self.stages(), root@)->0.root.has_children(),
            !(environment_run(self.stages(), root@) is TooLarge),
        ensures
            interpreted(r, environment_run(self.stages(), root@)),
    {
        let root = match self.stages.ingest(root) {
            Ok(p) => p,
            Err(e) => {
                return Err(e);
            },
        };
        interpret(&root.root)
    }
}

} // verus!
