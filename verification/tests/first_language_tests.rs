use sol::ast::{Node, NodeType};
use sol::parse::{ParseError, Parser, SymbolTable};
use sol::tokenize::Tokenizer;
use sol::repl::parser::{get_cmds_from_str, Command};
use sol::sys::ast::ASTNode;

fn kinds<'a>(n: &Node<'a>) -> Vec<NodeType<'a>> {
    n.children.as_ref().unwrap().iter().map(|c| c.node_type).collect()
}

fn first_parse(src: &str) -> Result<(Node<'_>, SymbolTable<'_>), ParseError> {
    Parser::from(Tokenizer::from(src)).parse()
}

fn first_error(src: &str) -> String {
    match first_parse(src) {
        Ok(_) => panic!("parsed"),
        Err(e) => e.report("f", src),
    }
}

#[test]
fn nodes() {
    let mut n = Node::new(NodeType::Root);
    assert_eq!(n.children.as_ref().unwrap().len(), 0);
    assert_eq!(n.insert_node(Node::new(NodeType::Figure(2))), 0);
    let mut bare = Node { node_type: NodeType::Gap, children: None };
    assert_eq!(bare.insert_node(Node::new(NodeType::Figure(1))), 0);
    assert_eq!(kinds(&bare), vec![NodeType::Figure(1)]);
    assert_eq!(Node::new(NodeType::Sequence("s")).get_name(), "s");
    assert_eq!(n.prettyprint(), vec!["\\_Root", "    \\_Figure(2)"]);
    assert_eq!(NodeType::Tal(3).to_text(), "Tal(3a)");
    assert_eq!(NodeType::Nad(5).to_text(), "Nad(5m)");
    assert_eq!(NodeType::FnCall("x").to_text(), "FnCall(x)");
    assert_eq!(NodeType::Sequence("x").to_text(), "Sequence(x)");
    assert_eq!(NodeType::Gap.to_text(), "Gap");
}

#[test]
fn parses_the_first_language() {
    let (root, table) = first_parse("seq a { 1 (2) } a 3 tal x").unwrap();
    assert_eq!(root.node_type, NodeType::Root);
    assert_eq!(
        kinds(&root),
        vec![NodeType::Sequence("a"), NodeType::FnCall("a"), NodeType::Figure(3), NodeType::FnCall("tal"), NodeType::FnCall("x")]
    );
    let seq = &root.children.as_ref().unwrap()[0];
    assert_eq!(kinds(seq), vec![NodeType::Figure(1), NodeType::Gap]);
    assert_eq!(kinds(&seq.children.as_ref().unwrap()[1]), vec![NodeType::Figure(2)]);
    assert_eq!(table.get("a"), 0);
    assert_eq!(sol::math::count_m(seq, &root, &table), 0);
    let (root2, table2) = first_parse("seq a { 1 (2) } a 3").unwrap();
    assert_eq!(sol::math::count_m(&root2, &root2, &table2), 6);
}

#[test]
fn first_language_errors() {
    assert_eq!(first_error("seq"), "f: error: expected an identifier (at end of input)");
    assert_eq!(first_error("seq a { tal }"), "f:1:9: error: cannot call 'tal' inside a sequence (not yet supported)");
    assert_eq!(first_error("seq a { 1 } seq a { }"), "f:1:13: error: sequence redefined: a");
    assert_eq!(first_error("( ( )"), "f:1:3: error: cannot nest gaps");
    assert_eq!(first_error("(x)"), "f:1:2: error: cannot call 'x' inside a gap");
    assert_eq!(first_error("sol"), "f:1:1: error: use of restricted keyword 'sol'");
    assert_eq!(first_error("seq 1"), "f:1:5: error: expected an identifier, found token figure(1)");
    assert_eq!(first_error("seq a 1"), "f:1:7: error: expected '{' after sequence name, found token figure(1)");
    assert!(first_parse("seq tal {").is_ok());
}

#[test]
fn first_language_symbol_table() {
    let mut t = SymbolTable::new();
    assert!(t.insert("a", 0, 0).is_ok());
    assert!(t.insert("b", 2, 5).is_ok());
    assert_eq!(t.get("b"), 2);
    assert_eq!(t.insert("a", 4, 3).unwrap_err().report("f", "abcdef"), "f:1:4: error: sequence redefined: a");
}

#[test]
fn parses_the_second_language() {
    let (root, table) = sol::parser::parse(Tokenizer::from("tal 4 seq a { 1 } nad 3 a")).unwrap();
    assert_eq!(
        kinds(&root),
        vec![NodeType::Tal(4), NodeType::Nad(4), NodeType::Sequence("a"), NodeType::Nad(3), NodeType::FnCall("a")]
    );
    assert_eq!(table.get("a"), 2);
}

fn second_error(src: &str) -> String {
    match sol::parser::parse(Tokenizer::from(src)) {
        Ok(_) => panic!("parsed"),
        Err(e) => e.report("f", src),
    }
}

#[test]
fn second_language_errors() {
    assert_eq!(second_error(""), "f:1:1: error: Expected tal decl at beginning of file");
    assert_eq!(second_error("1"), "f:1:1: error: Expected tal decl at beginning of file");
    assert_eq!(second_error("tal"), "f: error: expected a figure (at end of input)");
    assert_eq!(second_error("tal 4 seq a { nad }"), "f:1:15: error: Cannot invoke 'nad' inside a sequence");
    assert_eq!(second_error("tal 4 seq a { tal }"), "f:1:15: error: Cannot invoke 'tal' inside a sequence");
    assert_eq!(second_error("tal 4 (tal)"), "f:1:8: error: cannot invoke 'tal' inside a gap.");
    assert_eq!(second_error("tal 4 (nad)"), "f:1:8: error: Cannot invoke 'nad' inside a sequence");
    assert_eq!(second_error("tal 4 nad x"), "f:1:11: error: expected an figure, found token ident(x)");
}

#[test]
fn repl_commands() {
    assert_eq!(get_cmds_from_str("load a inspect b"), vec![Command::Load("a"), Command::Inspect("b")]);
    assert_eq!(get_cmds_from_str("  inspect \t q  "), vec![Command::Inspect("q")]);
    assert_eq!(get_cmds_from_str("load"), vec![]);
    assert_eq!(get_cmds_from_str(""), vec![]);
    assert_eq!(get_cmds_from_str("load inspect load x"), vec![Command::Load("x")]);
    assert_eq!(Command::Load("f").to_text(), "load f");
    assert_eq!(Command::Inspect("f").to_text(), "inspect f");
}

#[test]
fn counts_with_the_parsers_table() {
    let src = "tal 4 seq a { 1 (2 3) } a (4)";
    let p = sol::sys::parser::parse(Tokenizer::from(src)).unwrap();
    assert_eq!(sol::calc::mat::count_m(&p.root, &p.root, &p.symbols).unwrap(), 10);
    assert_eq!(sol::calc::mat::seq_count_m(p.root.get_child(2), &p.root, &p.symbols).unwrap(), 6);
    assert_eq!(sol::calc::mat::size_helper(p.root.get_child(2), &p.root, &p.symbols, false).unwrap(), 0);
    assert_eq!(sol::calc::aks::count_a(&p.root, &p.symbols).unwrap(), vec![(0, 4), (10, 4)]);
    let call = ASTNode::FnCall("b");
    assert_eq!(
        sol::calc::mat::count_m(&call, &p.root, &p.symbols).unwrap_err().report("f", ""),
        "f: error: undefined sequence: b"
    );
}

#[test]
fn parsed_tables_point_at_their_definitions() {
    let (root, table) = first_parse("seq a { 1 } 2 seq b { (3) } b (4)").unwrap();
    let cs = root.children.as_ref().unwrap();
    assert_eq!(table.get("a"), 0);
    assert_eq!(table.get("b"), 2);
    assert_eq!(cs[table.get("a")].node_type, NodeType::Sequence("a"));
    assert_eq!(cs[table.get("b")].node_type, NodeType::Sequence("b"));
    assert_eq!(kinds(&cs[4]), vec![NodeType::Figure(4)]);
    let (root2, table2) = sol::parser::parse(Tokenizer::from("tal 3 seq c { 1 (2) } c")).unwrap();
    let cs2 = root2.children.as_ref().unwrap();
    assert_eq!(cs2[0].node_type, NodeType::Tal(3));
    assert_eq!(cs2[1].node_type, NodeType::Nad(4));
    assert_eq!(cs2[table2.get("c")].node_type, NodeType::Sequence("c"));
}
