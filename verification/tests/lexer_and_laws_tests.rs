use sol::sys::ast::ASTNode;
use sol::sys::interpreter::{Environment, Pipeline};
use sol::sys::parser::parse;
use sol::sys::tokenize::{lexer, Token};
use sol::sys::transforms::{InteractiveMode, KeepInteractive, RemoveInteractive, Transform};
use sol::sys::Program;
use sol::tokenize::Tokenizer;

#[test]
fn lexer_reads_tokens_with_byte_ranges() {
    let toks = lexer("seq a { 12 (0) }").unwrap();
    assert_eq!(
        toks,
        vec![
            (Token::SeqKw, (0, 3)),
            (Token::Ident("a"), (4, 5)),
            (Token::Ctrl('{'), (6, 7)),
            (Token::Figure(12), (8, 10)),
            (Token::Ctrl('('), (11, 12)),
            (Token::Figure(0), (12, 13)),
            (Token::Ctrl(')'), (13, 14)),
            (Token::Ctrl('}'), (15, 16)),
        ]
    );
}

#[test]
fn lexer_keywords_and_identifiers() {
    let toks = lexer("aks mat sol tal nad _x9").unwrap();
    let kinds: Vec<Token> = toks.into_iter().map(|t| t.0).collect();
    assert_eq!(
        kinds,
        vec![Token::Aks, Token::Mat, Token::Sol, Token::Ident("tal"), Token::Ident("nad"), Token::Ident("_x9")]
    );
    assert_eq!(Token::Aks.to_text(), "sol");
    assert_eq!(Token::SeqKw.to_text(), "seq");
    assert_eq!(Token::Figure(42).to_text(), "42");
    assert_eq!(Token::Ctrl('(').to_text(), "(");
    assert_eq!(Token::Ident("x").to_text(), "x");
}

#[test]
fn lexer_splits_figures_and_words() {
    let toks = lexer("0123 12ab").unwrap();
    let kinds: Vec<Token> = toks.into_iter().map(|t| t.0).collect();
    assert_eq!(kinds, vec![Token::Figure(0), Token::Figure(123), Token::Figure(12), Token::Ident("ab")]);
}

#[test]
fn lexer_skips_comments_and_white_space() {
    let toks = lexer("  // note\n x // end").unwrap();
    assert_eq!(toks, vec![(Token::Ident("x"), (11, 12))]);
    assert_eq!(lexer(""), Some(vec![]));
}

#[test]
fn lexer_recovers_from_unreadable_characters() {
    let toks = lexer("a @# b").unwrap();
    assert_eq!(toks, vec![(Token::Ident("a"), (0, 1)), (Token::Ident("b"), (5, 6))]);
    assert_eq!(lexer("é x").unwrap(), vec![(Token::Ident("x"), (3, 4))]);
}

#[test]
fn lexer_rejects_texts_it_cannot_finish() {
    assert_eq!(lexer("a @"), None);
    assert_eq!(lexer("   "), None);
    assert_eq!(lexer("/"), None);
}

#[test]
fn lexed_spans_come_in_order() {
    let toks = lexer("seq x{ (1 2)}// c\n 3 y").unwrap();
    for t in &toks {
        assert!(t.1 .0 < t.1 .1);
    }
    for w in toks.windows(2) {
        assert!(w[0].1 .1 <= w[1].1 .0);
    }
}

#[test]
fn tokenizer_spans_come_in_order() {
    let spans = Tokenizer::from("tal 8 seq a{1 2}(3) é b").spans();
    let starts: Vec<usize> = spans.iter().map(|s| s.start()).collect();
    assert_eq!(starts, vec![0, 4, 6, 10, 11, 12, 14, 15, 16, 17, 18, 20, 23]);
    for w in starts.windows(2) {
        assert!(w[0] < w[1]);
    }
}

#[test]
fn closing_a_block_gives_back_the_enclosing_one() {
    let p = parse(Tokenizer::from("tal 4 seq a { (1) 2 (3) } (4)")).unwrap();
    assert_eq!(
        p.root,
        ASTNode::Root(vec![
            ASTNode::Tal(4),
            ASTNode::Nad(4),
            ASTNode::Sequence(
                "a",
                vec![
                    ASTNode::Gap(vec![ASTNode::Figure(1)]),
                    ASTNode::Figure(2),
                    ASTNode::Gap(vec![ASTNode::Figure(3)]),
                ]
            ),
            ASTNode::Gap(vec![ASTNode::Figure(4)]),
        ])
    );
}

#[test]
fn symbol_table_reads_back_what_was_written() {
    let mut t = sol::sys::parser::SymbolTable::new();
    assert!(t.insert("a", 2, 0).is_ok());
    assert!(t.insert("b", 5, 0).is_ok());
    assert_eq!(t.get("a").unwrap(), 2);
    assert_eq!(t.get("b").unwrap(), 5);
    assert!(t.get("c").is_err());
    let mut old = sol::parse::SymbolTable::new();
    assert!(old.insert("q", 7, 0).is_ok());
    assert_eq!(old.get("q"), 7);
}

#[test]
fn parsed_programs_start_with_tal_and_nadai_four() {
    let p = parse(Tokenizer::from("tal 7 seq a { 1 (2) } seq b { 3 } a b")).unwrap();
    let cs = p.root.get_children();
    assert_eq!(cs[0], ASTNode::Tal(7));
    assert_eq!(cs[1], ASTNode::Nad(4));
    assert_eq!(p.symbols.get("a").unwrap(), 2);
    assert_eq!(p.symbols.get("b").unwrap(), 3);
    assert_eq!(cs[2].get_name(), "a");
    assert_eq!(cs[3].get_name(), "b");
}

#[test]
fn parsed_programs_meet_only_run_time_errors() {
    let stage = RemoveInteractive::new();
    let mut pipe = Pipeline::new();
    pipe.add_stage(&stage);
    let env = Environment::new(pipe);
    let src = "tal 4 seq a { 1 (2 3) } a a 4";
    let r = env.interpret(parse(Tokenizer::from(src)).unwrap()).unwrap();
    let runs = r.aks_terms();
    let sum: usize = runs.iter().map(|t| t.0).sum();
    assert_eq!(r.total_mat_count(), 16);
    assert_eq!(sum, 16);
    let e = env.interpret(parse(Tokenizer::from("tal 4 c")).unwrap()).unwrap_err();
    assert_eq!(e.report("f", ""), "f: error: undefined sequence: c");
}

#[test]
fn dropping_interactive_commands_twice_changes_nothing() {
    let root = ASTNode::Root(vec![
        ASTNode::Reload,
        ASTNode::Tal(4),
        ASTNode::Load("x"),
        ASTNode::Sequence("a", vec![]),
        ASTNode::Inspect("y"),
    ]);
    let prog = Program::new(root, 4, sol::sys::parser::SymbolTable::new());
    let once = RemoveInteractive::new().mutate(prog).unwrap();
    let expected = ASTNode::Root(vec![ASTNode::Tal(4), ASTNode::Sequence("a", vec![])]);
    assert_eq!(once.root, expected);
    let twice = KeepInteractive::new().mutate(once).unwrap();
    assert_eq!(twice.root, expected);
    let only_defs = InteractiveMode::new().mutate(twice).unwrap();
    assert_eq!(only_defs.root, ASTNode::Root(vec![ASTNode::Sequence("a", vec![])]));
    let again = InteractiveMode::new().mutate(only_defs).unwrap();
    assert_eq!(again.root, ASTNode::Root(vec![ASTNode::Sequence("a", vec![])]));
}

#[test]
fn akshara_runs_add_up_to_matras() {
    let root = ASTNode::Root(vec![
        ASTNode::Tal(4),
        ASTNode::Figure(2),
        ASTNode::Nad(3),
        ASTNode::Sequence("a", vec![ASTNode::Figure(1), ASTNode::Gap(vec![ASTNode::Figure(4)])]),
        ASTNode::FnCall("a"),
        ASTNode::Nad(5),
        ASTNode::Gap(vec![ASTNode::Figure(3)]),
    ]);
    let table = sol::sys::SymbolTable::new(&root).unwrap();
    let total = sol::sys::stdlib::mat::count_m(&root, &table).unwrap();
    let runs = sol::sys::stdlib::aks::count_a(&root, &table).unwrap();
    assert_eq!(total, 10);
    assert_eq!(runs, vec![(2, 4), (5, 3), (3, 5)]);
    assert_eq!(runs.iter().map(|r| r.0).sum::<usize>(), total);

    let src = "tal 4 1 nad 3 seq b { 2 (3) } b nad 6 b 4";
    let p = parse(Tokenizer::from(src)).unwrap();
    let total = sol::calc::mat::count_m(&p.root, &p.root, &p.symbols).unwrap();
    let runs = sol::calc::aks::count_a(&p.root, &p.symbols).unwrap();
    assert_eq!(total, 15);
    assert_eq!(runs, vec![(0, 4), (1, 4), (5, 3), (9, 6)]);
    assert_eq!(runs.iter().map(|r| r.0).sum::<usize>(), total);
}

#[test]
fn appending_a_figure_adds_one_run() {
    let run = |src: &str| {
        let stage = RemoveInteractive::new();
        let mut pipe = Pipeline::new();
        pipe.add_stage(&stage);
        let env = Environment::new(pipe);
        let r = env.interpret(parse(Tokenizer::from(src)).unwrap()).unwrap();
        (r.total_mat_count(), r.aks_terms().clone())
    };
    let (m1, t1) = run("tal 4 2 nad 3 1");
    let (m2, t2) = run("tal 4 2 nad 3 1 5");
    assert_eq!(m2, m1 + 5);
    let mut expected = t1.clone();
    expected.push((5, 3));
    assert_eq!(t2, expected);
    let (m3, t3) = run("tal 4 7");
    assert_eq!(m3, 7);
    assert_eq!(t3, vec![(7, 4)]);
}

#[test]
fn command_reader_counts_its_complaints() {
    let (cmds, complaints) = sol::repl::parser::read_commands("load a inspect load load");
    assert_eq!(cmds, vec![sol::repl::parser::Command::Load("a")]);
    assert_eq!(complaints, 2);
    let (cmds, complaints) = sol::repl::parser::read_commands("inspect q");
    assert_eq!(cmds, vec![sol::repl::parser::Command::Inspect("q")]);
    assert_eq!(complaints, 0);
}
