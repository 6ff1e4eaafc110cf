use sol::sys::ast::ASTNode;
use sol::sys::interpreter::{Environment, Pipeline};
use sol::sys::parser::parse;
use sol::sys::transforms::{InteractiveMode, KeepInteractive, RemoveInteractive, Transform};
use sol::sys::warnings::Error;
use sol::sys::Program;
use sol::tokenize::Tokenizer;
use sol::sys::stdlib::aks::count_a;
use sol::sys::stdlib::mat::{count_m, seq_count_m};

fn parse_src(src: &str) -> Result<Program<'_>, Error> {
    parse(Tokenizer::from(src))
}

fn parse_error(src: &str) -> String {
    match parse_src(src) {
        Ok(p) => panic!("parsed: {:?}", p.root),
        Err(e) => e.report("f", src),
    }
}

#[test]
fn parses_a_program() {
    let p = parse_src("tal 8 seq a { 1 2 } a 3").unwrap();
    assert_eq!(p.tal, 8);
    assert_eq!(
        p.root,
        ASTNode::Root(vec![
            ASTNode::Tal(8),
            ASTNode::Nad(4),
            ASTNode::Sequence("a", vec![ASTNode::Figure(1), ASTNode::Figure(2)]),
            ASTNode::FnCall("a"),
            ASTNode::Figure(3),
        ])
    );
    assert_eq!(p.symbols.get("a").unwrap(), 2);
    assert!(p.symbols.get("b").is_err());
}

#[test]
fn parses_gaps_nads_and_open_blocks() {
    let p = parse_src("tal 3 nad 5 (1 2) seq b { (4) 5").unwrap();
    assert_eq!(
        p.root,
        ASTNode::Root(vec![
            ASTNode::Tal(3),
            ASTNode::Nad(4),
            ASTNode::Nad(5),
            ASTNode::Gap(vec![ASTNode::Figure(1), ASTNode::Figure(2)]),
            ASTNode::Sequence("b", vec![ASTNode::Gap(vec![ASTNode::Figure(4)]), ASTNode::Figure(5)]),
        ])
    );
}

#[test]
fn parse_errors_at_the_top_level() {
    assert_eq!(parse_error(""), "f:1:1: error: Expected tal decl at beginning of file");
    assert_eq!(parse_error("seq a { 1 }"), "f:1:1: error: Expected tal decl at beginning of file");
    assert_eq!(parse_error("tal"), "f: error: expected a figure (unexpected end of input)");
    assert_eq!(parse_error("tal x"), "f:1:5: error: expected an figure, found token ident(x)");
    assert_eq!(parse_error("tal 4 sol"), "f:1:7: error: use of restricted keyword 'sol'");
    assert_eq!(parse_error("tal 4\nsol"), "f:2:1: error: use of restricted keyword 'sol'");
    assert_eq!(parse_error("tal 4 }"), "f:1:7: error: unexpected '}' (no matching sequence)");
    assert_eq!(parse_error("tal 4 { }"), "f:1:7: error: unexpected '{' (anonymous sequence)");
    assert_eq!(parse_error("tal 4 )"), "f:1:7: error: unexpected ')' (no matching gap)");
    assert_eq!(parse_error("tal 4 nad"), "f: error: expected a figure (unexpected end of input)");
    assert_eq!(
        parse_error("tal 4 seq a { 1 } seq a { 2 }"),
        "f:1:19: error: sequence redefined: a"
    );
}

#[test]
fn parse_errors_in_definitions() {
    assert_eq!(parse_error("tal 4 seq"), "f: error: expected an identifier (unexpected end of input)");
    assert_eq!(
        parse_error("tal 4 seq { }"),
        "f:1:11: error: expected an identifier, found token seq start"
    );
    assert_eq!(parse_error("tal 4 seq a"), "f: error: expected '{' after sequence name (unexpected end of input)");
    assert_eq!(
        parse_error("tal 4 seq a 1"),
        "f:1:13: error: expected '{' after sequence name, found token figure(1)"
    );
    assert_eq!(parse_error("tal 4 seq a { seq }"), "f:1:15: error: cannot nest a sequence definition");
    assert_eq!(parse_error("tal 4 seq a { sol }"), "f:1:15: error: use of restricted keyword 'sol'");
    assert_eq!(parse_error("tal 4 seq a { tal 3 }"), "f:1:15: error: cannot invoke 'tal' inside a sequence");
    assert_eq!(parse_error("tal 4 seq a { nad 3 }"), "f:1:15: error: cannot invoke 'nad' inside a sequence");
    assert_eq!(parse_error("tal 4 seq a { b }"), "f:1:15: error: cannot call 'b' inside a sequence");
    assert_eq!(parse_error("tal 4 seq a { { }"), "f:1:15: error: unexpected '{' (anonymous sequence)");
    assert_eq!(parse_error("tal 4 seq a { ) }"), "f:1:15: error: unexpected ')' (no matching gap)");
}

#[test]
fn parse_errors_in_gaps() {
    assert_eq!(parse_error("tal 4 (1 (2))"), "f:1:10: error: cannot nest gaps");
    assert_eq!(parse_error("tal 4 (x)"), "f:1:8: error: cannot call 'x' inside a gap");
    assert_eq!(parse_error("tal 4 ( } )"), "f:1:9: error: unopened sequence block");
    assert_eq!(parse_error("tal 4 (tal)"), "f:1:8: error: cannot invoke 'tal' inside a gap");
    assert_eq!(parse_error("tal 4 (nad)"), "f:1:8: error: cannot invoke 'nad' inside a gap");
    assert_eq!(parse_error("tal 4 (seq)"), "f:1:8: error: cannot nest a sequence definition");
    assert_eq!(parse_error("tal 4 ({)"), "f:1:8: error: unexpected '{' (anonymous sequence)");
}

#[test]
fn error_constructors_and_reports() {
    assert_eq!(Error::at(0, "m").report("f", ""), "f:1:1: error: m");
    assert_eq!(Error::at(4, "m").report("f", "é\nab"), "f:2:2: error: m");
    assert_eq!(Error::at(100, "m").report("f", "ab\nc"), "f:2:2: error: m");
    assert_eq!(Error::global("g").report("f", "x"), "f: error: g");
    assert_eq!(Error::eof("e").report("f", "x"), "f: error: e (unexpected end of input)");
}

fn run(src: &str) -> Result<(usize, Vec<(usize, usize)>), String> {
    let p = parse_src(src).map_err(|e| e.report("f", src))?;
    let stage = RemoveInteractive::new();
    let mut pipe = Pipeline::new();
    pipe.add_stage(&stage);
    let env = Environment::new(pipe);
    let r = env.interpret(p).map_err(|e| e.report("f", src))?;
    Ok((r.total_mat_count(), r.aks_terms().clone()))
}

#[test]
fn interprets_a_program() {
    assert_eq!(run("tal 8 seq a { 1 2 } a 3"), Ok((6, vec![(3, 4), (3, 4)])));
    assert_eq!(run("tal 8 1 nad 3 2 (1 1)"), Ok((5, vec![(1, 4), (2, 3), (2, 3)])));
    assert_eq!(run("tal 8 seq a { 1 (2 3) } a a"), Ok((12, vec![(6, 4), (6, 4)])));
    assert_eq!(run("tal 8"), Ok((0, vec![])));
}

#[test]
fn interpreter_errors() {
    assert_eq!(run("tal 4 tal 5"), Err("f: error: cannot redeclare tal param".to_string()));
    assert_eq!(run("tal 4 b"), Err("f: error: undefined sequence: b".to_string()));
    assert_eq!(run("tal 4 b seq b { 1 }"), Err("f: error: undefined sequence: b".to_string()));
}

fn run_tree(root: ASTNode<'_>) -> Result<(usize, Vec<(usize, usize)>), String> {
    let symbols = sol::sys::parser::SymbolTable::new();
    let p = Program::new(root, 4, symbols);
    let env = Environment::new(Pipeline::new());
    let r = env.interpret(p).map_err(|e| e.report("f", ""))?;
    Ok((r.total_mat_count(), r.aks_terms().clone()))
}

#[test]
fn interpreter_errors_on_hand_built_trees() {
    assert_eq!(
        run_tree(ASTNode::Root(vec![ASTNode::Gap(vec![ASTNode::Figure(1)])])),
        Err("f: error: tal param left undeclared".to_string())
    );
    assert_eq!(
        run_tree(ASTNode::Root(vec![ASTNode::FnCall("a")])),
        Err("f: error: tal param left undeclared".to_string())
    );
    assert_eq!(
        run_tree(ASTNode::Root(vec![ASTNode::Tal(4), ASTNode::Gap(vec![ASTNode::FnCall("a")])])),
        Err("f: error: some unidentified error".to_string())
    );
    assert_eq!(
        run_tree(ASTNode::Root(vec![
            ASTNode::Sequence("a", vec![]),
            ASTNode::Sequence("a", vec![]),
        ])),
        Err("f: error: sequence redefined: a".to_string())
    );
    assert_eq!(
        run_tree(ASTNode::Root(vec![
            ASTNode::Tal(4),
            ASTNode::Sequence("a", vec![ASTNode::FnCall("b")]),
            ASTNode::FnCall("a"),
        ])),
        Err("f: error: encountered illegal node in sequence".to_string())
    );
    assert_eq!(
        run_tree(ASTNode::Root(vec![
            ASTNode::Tal(4),
            ASTNode::Sequence("a", vec![ASTNode::Gap(vec![ASTNode::Tal(1)])]),
            ASTNode::FnCall("a"),
        ])),
        Err("f: error: encountered illegal node in gap".to_string())
    );
    assert_eq!(
        run_tree(ASTNode::Root(vec![ASTNode::Figure(2), ASTNode::Reload, ASTNode::Tal(4)])),
        Ok((2, vec![(2, 4)]))
    );
}

#[test]
fn transforms_filter_the_top_level() {
    let root = || {
        ASTNode::Root(vec![
            ASTNode::Tal(4),
            ASTNode::Sequence("a", vec![]),
            ASTNode::Figure(1),
            ASTNode::Reload,
            ASTNode::Load("x"),
            ASTNode::Inspect("y"),
        ])
    };
    let prog = |r| Program::new(r, 4, sol::sys::parser::SymbolTable::new());
    let p = RemoveInteractive::new().mutate(prog(root())).unwrap();
    assert_eq!(
        p.root,
        ASTNode::Root(vec![ASTNode::Tal(4), ASTNode::Sequence("a", vec![]), ASTNode::Figure(1)])
    );
    let p = KeepInteractive::new().mutate(prog(root())).unwrap();
    assert_eq!(
        p.root,
        ASTNode::Root(vec![ASTNode::Tal(4), ASTNode::Sequence("a", vec![]), ASTNode::Figure(1)])
    );
    let p = InteractiveMode::new().mutate(prog(root())).unwrap();
    assert_eq!(
        p.root,
        ASTNode::Root(vec![
            ASTNode::Sequence("a", vec![]),
            ASTNode::Reload,
            ASTNode::Load("x"),
            ASTNode::Inspect("y"),
        ])
    );
    assert_eq!(p.tal, 4);
}

#[test]
fn pipelines_run_stages_in_order() {
    let a = InteractiveMode::new();
    let b = RemoveInteractive::new();
    let mut pipe = sol::sys::Pipeline::new();
    pipe.add_stage(&a);
    pipe.add_stage(&b);
    let p = Program::new(
        ASTNode::Root(vec![ASTNode::Tal(4), ASTNode::Sequence("s", vec![]), ASTNode::Reload]),
        4,
        sol::sys::parser::SymbolTable::new(),
    );
    let out = pipe.ingest(p).unwrap();
    assert_eq!(out.root, ASTNode::Root(vec![ASTNode::Sequence("s", vec![])]));
    let empty = sol::sys::Pipeline::new();
    let p = Program::new(ASTNode::Gap(vec![ASTNode::Figure(1)]), 4, sol::sys::parser::SymbolTable::new());
    assert_eq!(empty.ingest(p).unwrap().root, ASTNode::Gap(vec![ASTNode::Figure(1)]));
}

#[test]
fn tree_nodes() {
    let mut root = ASTNode::Root(vec![]);
    assert_eq!(root.insert_node(ASTNode::Tal(4)), 0);
    assert_eq!(root.insert_node(ASTNode::Sequence("a", vec![ASTNode::Figure(1)])), 1);
    assert_eq!(root.get_children().len(), 2);
    assert_eq!(*root.get_child(0), ASTNode::Tal(4));
    assert_eq!(root.get_child(1).get_name(), "a");
    root.set_children(vec![ASTNode::Reload]);
    assert_eq!(root, ASTNode::Root(vec![ASTNode::Reload]));
    assert!(ASTNode::Reload.is_interactive());
    assert!(ASTNode::Load("x").is_interactive());
    assert!(!ASTNode::Figure(1).is_interactive());
    assert_eq!(ASTNode::Tal(12).to_text(), "tal 12");
    assert_eq!(ASTNode::Sequence("s", vec![]).to_text(), "seq s");
    assert_eq!(ASTNode::Inspect("q").to_text(), "inspect q");
    assert_eq!(ASTNode::Root(vec![]).to_text(), "");
}

#[test]
fn tree_drawing() {
    let root = ASTNode::Root(vec![ASTNode::Tal(4), ASTNode::Sequence("a", vec![ASTNode::Figure(1)])]);
    assert_eq!(
        root.prettyprint(),
        vec!["\\_", "    |- tal 4", "    \\_seq a", "        \\_1"]
    );
}

#[test]
fn counting_matras_and_runs() {
    let root = ASTNode::Root(vec![
        ASTNode::Tal(4),
        ASTNode::Nad(4),
        ASTNode::Sequence("a", vec![ASTNode::Figure(1), ASTNode::Figure(2)]),
        ASTNode::FnCall("a"),
        ASTNode::Nad(3),
        ASTNode::Figure(5),
        ASTNode::Gap(vec![ASTNode::Figure(1)]),
    ]);
    let table = sol::sys::SymbolTable::new(&root).unwrap();
    assert_eq!(count_m(&root, &table).unwrap(), 9);
    assert_eq!(count_a(&root, &table).unwrap(), vec![(0, 4), (3, 4), (6, 3)]);
    assert_eq!(seq_count_m(root.get_child(2)).unwrap(), 3);
    assert_eq!(
        seq_count_m(&ASTNode::Figure(1)).unwrap_err().report("f", ""),
        "f: error: cannot invoke helper on non-sequence node"
    );
    assert_eq!(
        count_m(&ASTNode::FnCall("zz"), &table).unwrap_err().report("f", ""),
        "f: error: undefined sequence: zz"
    );
}

#[test]
fn symbol_tables() {
    let root = ASTNode::Root(vec![
        ASTNode::Sequence("a", vec![]),
        ASTNode::Figure(1),
        ASTNode::Sequence("b", vec![ASTNode::Figure(2)]),
    ]);
    let t = sol::sys::SymbolTable::new(&root).unwrap();
    assert_eq!(*t.get("b").unwrap(), ASTNode::Sequence("b", vec![ASTNode::Figure(2)]));
    assert!(t.get("c").is_err());
    let t2 = sol::sys::interpreter::SymbolTable::new(&root).unwrap();
    assert_eq!(*t2.get("a").unwrap(), ASTNode::Sequence("a", vec![]));
    let dup = ASTNode::Root(vec![ASTNode::Sequence("a", vec![]), ASTNode::Sequence("a", vec![])]);
    assert_eq!(
        sol::sys::SymbolTable::new(&dup).unwrap_err().report("f", ""),
        "f: error: sequence redefined: a"
    );
    let mut p = sol::sys::parser::SymbolTable::new();
    assert!(p.insert("a", 3, 0).is_ok());
    assert_eq!(p.insert("a", 5, 7).unwrap_err().report("f", "0123456789"), "f:1:8: error: sequence redefined: a");
    assert_eq!(p.get("a").unwrap(), 3);
}
